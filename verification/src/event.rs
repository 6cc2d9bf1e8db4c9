use vstd::prelude::*;
use vstd::string::*;
use crate::numeric::{dec_of, u64_to_string};

verus! {

/// A single calendar entry.
///
/// The `date` field is expected to hold a `YYYY-MM-DD` shaped string and the
/// `time` field an `HH:MM` shaped string, so that lexicographic order on the
/// characters coincides with chronological order; the store compares them as
/// plain character sequences.
pub struct Event {
    pub id: u64,
    pub title: String,
    pub date: String,
    pub time: String,
    pub description: String,
}

/// The mathematical model of an `Event`: the id and the four text fields as
/// character sequences.
#[verifier::ext_equal]
pub ghost struct EventView {
    pub id: u64,
    pub title: Seq<char>,
    pub date: Seq<char>,
    pub time: Seq<char>,
    pub description: Seq<char>,
}

impl View for Event {
    type V = EventView;

    open spec fn view(&self) -> EventView {
        EventView {
            id: self.id,
            title: self.title@,
            date: self.date@,
            time: self.time@,
            description: self.description@,
        }
    }
}

/// The fixed human-readable block for one event: the labeled id, title,
/// combined date and time, and description, framed by a separator line above
/// and below, with a blank line after. Nothing is escaped or validated.
pub open spec fn render_v(e: EventView) -> Seq<char> {
    "==========================\n"@ + "ID: "@ + dec_of(e.id as nat) + "\nTitle: "@ + e.title
        + "\nDatetime: "@ + e.date + " "@ + e.time + "\nDescription: "@ + e.description
        + "\n==========================\n\n"@
}

impl Event {
    /// The human-readable block for this event.
    pub fn render(&self) -> (r: String)
        ensures
            r@ == render_v(self@),
    {
        let mut r = String::from_str("==========================\n");
        r.append("ID: ");
        let id_s = u64_to_string(self.id);
        r.append(id_s.as_str());
        r.append("\nTitle: ");
        r.append(self.title.as_str());
        r.append("\nDatetime: ");
        r.append(self.date.as_str());
        r.append(" ");
        r.append(self.time.as_str());
        r.append("\nDescription: ");
        r.append(self.description.as_str());
        r.append("\n==========================\n\n");
        proof {
            assert(r@ =~= render_v(self@));
        }
        r
    }

    /// An exact copy, field by field.
    pub fn copy_of(&self) -> (r: Event)
        ensures
            r@ == self@,
    {
        Event {
            id: self.id,
            title: self.title.clone(),
            date: self.date.clone(),
            time: self.time.clone(),
            description: self.description.clone(),
        }
    }
}

} // verus!
