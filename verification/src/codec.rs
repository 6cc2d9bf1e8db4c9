//! The text-file format: one event per line, the five fields joined by `|`
//! and terminated by a newline. Saving renders the store's events in order;
//! loading ingests every well-formed line, skips malformed ones, and raises
//! the id allocator past every id it saw.

use vstd::prelude::*;
use vstd::string::*;
use crate::event::{Event, EventView};
use crate::numeric::{dec_of, parse_u64, parse_u64_v, u64_to_string};
use crate::store::{lemma_store_view, views_of, Store, StoreView};
use crate::strutil::{split_char, split_on, views_of_strings};

verus! {

/// Text that the line format can carry: free of the field separator and of
/// line breaks.
pub open spec fn clean_text(s: Seq<char>) -> bool {
    forall|i: int| 0 <= i < s.len() ==> (#[trigger] s[i]) != '|' && s[i] != '\n'
}

/// Every text field of the event can be carried by the line format.
pub open spec fn fields_clean(e: EventView) -> bool {
    clean_text(e.title) && clean_text(e.date) && clean_text(e.time) && clean_text(e.description)
}

/// One line of the file: the five fields joined by `|`, without the
/// terminating newline.
pub open spec fn line_of(e: EventView) -> Seq<char> {
    dec_of(e.id as nat) + seq!['|'] + e.title + seq!['|'] + e.date + seq!['|'] + e.time + seq!['|']
        + e.description
}

/// The whole file: every event's line in store order, each followed by a
/// newline.
pub open spec fn file_of(events: Seq<EventView>) -> Seq<char>
    decreases events.len(),
{
    if events.len() == 0 {
        Seq::empty()
    } else {
        file_of(events.drop_last()) + line_of(events.last()) + seq!['\n']
    }
}

/// What one line parses to: exactly five `|`-separated parts whose first
/// parses as an unsigned 64-bit id, the other four taken verbatim. Anything
/// else is no event.
pub open spec fn parse_line_v(line: Seq<char>) -> Option<EventView> {
    let parts = split_on(line, '|');
    if parts.len() == 5 {
        match parse_u64_v(parts[0]) {
            Some(id) => Some(
                EventView {
                    id,
                    title: parts[1],
                    date: parts[2],
                    time: parts[3],
                    description: parts[4],
                },
            ),
            None => None,
        }
    } else {
        None
    }
}

/// The events of the well-formed lines, in file order.
pub open spec fn parsed_events(lines: Seq<Seq<char>>) -> Seq<EventView>
    decreases lines.len(),
{
    if lines.len() == 0 {
        Seq::empty()
    } else {
        let rest = parsed_events(lines.drop_last());
        match parse_line_v(lines.last()) {
            Some(e) => rest.push(e),
            None => rest,
        }
    }
}

/// How many lines have the right shape but an unparseable id: the ones a
/// driver reports.
pub open spec fn bad_id_lines(lines: Seq<Seq<char>>) -> nat
    decreases lines.len(),
{
    if lines.len() == 0 {
        0
    } else {
        bad_id_lines(lines.drop_last()) + (if split_on(lines.last(), '|').len() == 5
            && parse_u64_v(split_on(lines.last(), '|')[0]) is None {
            1nat
        } else {
            0nat
        })
    }
}

/// The events a file's content loads to.
pub open spec fn load_events_v(content: Seq<char>) -> Seq<EventView> {
    parsed_events(split_on(content, '\n'))
}

/// The number of reported bad lines in a file's content.
pub open spec fn bad_lines_v(content: Seq<char>) -> nat {
    bad_id_lines(split_on(content, '\n'))
}

/// The largest id among the events, or 0 when there are none.
pub open spec fn max_id_of(events: Seq<EventView>) -> u64
    decreases events.len(),
{
    if events.len() == 0 {
        0u64
    } else {
        let m = max_id_of(events.drop_last());
        if events.last().id > m {
            events.last().id
        } else {
            m
        }
    }
}

/// The store after `load`: the file's events appended in file order, and the
/// id allocator raised to the largest id seen, so that later `create` calls
/// cannot collide with loaded ids.
pub open spec fn load_t(s: StoreView, content: Seq<char>) -> StoreView {
    let loaded = load_events_v(content);
    let m = max_id_of(loaded);
    StoreView {
        events: s.events + loaded,
        last_id: if m > s.last_id {
            m
        } else {
            s.last_id
        },
    }
}

/// Renders one event as its file line, without the newline.
pub fn render_line(e: &Event) -> (r: String)
    ensures
        r@ == line_of(e@),
{
    let mut r = u64_to_string(e.id);
    r.append("|");
    r.append(e.title.as_str());
    r.append("|");
    r.append(e.date.as_str());
    r.append("|");
    r.append(e.time.as_str());
    r.append("|");
    r.append(e.description.as_str());
    proof {
        reveal_strlit("|");
        assert("|"@ =~= seq!['|']);
        assert(r@ =~= line_of(e@));
    }
    r
}

/// Parses one line of the file; malformed lines parse to nothing.
pub fn parse_line(line: &str) -> (r: Option<Event>)
    ensures
        match r {
            Some(e) => parse_line_v(line@) == Some(e@),
            None => parse_line_v(line@) is None,
        },
{
    let parts = split_char(line, '|');
    if parts.len() != 5 {
        return None;
    }
    proof {
        assert(split_on(line@, '|')[0] == parts@[0]@);
    }
    match parse_u64(parts[0].as_str()) {
        Some(id) => {
            let e = Event {
                id,
                title: parts[1].clone(),
                date: parts[2].clone(),
                time: parts[3].clone(),
                description: parts[4].clone(),
            };
            proof {
                assert(split_on(line@, '|')[1] == parts@[1]@);
                assert(split_on(line@, '|')[2] == parts@[2]@);
                assert(split_on(line@, '|')[3] == parts@[3]@);
                assert(split_on(line@, '|')[4] == parts@[4]@);
            }
            Some(e)
        },
        None => None,
    }
}

impl Store {
    /// Renders the whole store in the file format: every event's line in
    /// insertion order, each terminated by a newline.
    pub fn save_to_string(&self) -> (r: String)
        ensures
            r@ == file_of(self@.events),
    {
        let mut out = String::new();
        let n = self.events.len();
        let mut i: usize = 0;
        proof {
            assert(views_of(self.events@).subrange(0, 0) =~= Seq::<EventView>::empty());
        }
        while i < n
            invariant
                n == self.events@.len(),
                0 <= i <= n,
                out@ == file_of(views_of(self.events@).subrange(0, i as int)),
            decreases n - i,
        {
            let line = render_line(&self.events[i]);
            out.append(line.as_str());
            out.append("\n");
            proof {
                reveal_strlit("\n");
                assert("\n"@ =~= seq!['\n']);
                let evs = views_of(self.events@);
                assert(evs.subrange(0, i + 1).drop_last() =~= evs.subrange(0, i as int));
                assert(evs.subrange(0, i + 1).last() == evs[i as int]);
                assert(out@ =~= file_of(evs.subrange(0, i + 1)));
            }
            i = i + 1;
        }
        proof {
            lemma_store_view(*self);
            assert(views_of(self.events@).subrange(0, n as int) =~= views_of(self.events@));
        }
        out
    }

    /// Ingests a file's content: appends the event of every well-formed line
    /// in file order, skips malformed lines, and raises the id allocator to
    /// the largest id seen. Returns how many lines had the right shape but an
    /// unparseable id, for the driver to report.
    pub fn load_from_str(&mut self, content: &str) -> (bad: usize)
        ensures
            final(self)@ == load_t(old(self)@, content@),
            bad as nat == bad_lines_v(content@),
    {
        let lines = split_char(content, '\n');
        let nl = lines.len();
        let ghost lseq = views_of_strings(lines@);
        let ghost evs0 = views_of(self.events@);
        let ghost lid0 = self.last_id;
        let mut i: usize = 0;
        let mut max_seen: u64 = 0;
        let mut bad: usize = 0;
        proof {
            assert(lseq.subrange(0, 0) =~= Seq::<Seq<char>>::empty());
            assert(views_of(self.events@) =~= evs0 + parsed_events(lseq.subrange(0, 0)));
        }
        while i < nl
            invariant
                nl == lines@.len(),
                0 <= i <= nl,
                lseq == views_of_strings(lines@),
                lseq == split_on(content@, '\n'),
                views_of(self.events@) == evs0 + parsed_events(lseq.subrange(0, i as int)),
                self.last_id == lid0,
                max_seen == max_id_of(parsed_events(lseq.subrange(0, i as int))),
                bad as nat == bad_id_lines(lseq.subrange(0, i as int)),
                bad <= i,
            decreases nl - i,
        {
            let ghost pre = parsed_events(lseq.subrange(0, i as int));
            let ghost evs_pre = views_of(self.events@);
            proof {
                assert(lseq.subrange(0, i + 1).drop_last() =~= lseq.subrange(0, i as int));
                assert(lseq.subrange(0, i + 1).last() == lseq[i as int]);
                assert(lseq[i as int] == lines@[i as int]@);
            }
            match parse_line(lines[i].as_str()) {
                Some(e) => {
                    if e.id > max_seen {
                        max_seen = e.id;
                    }
                    let ghost ev = e@;
                    self.events.push(e);
                    proof {
                        assert(views_of(self.events@) =~= evs_pre.push(ev));
                        assert(evs_pre.push(ev) =~= evs0 + parsed_events(
                            lseq.subrange(0, i + 1),
                        ));
                        assert(parsed_events(lseq.subrange(0, i + 1)).drop_last() =~= pre);
                    }
                },
                None => {
                    let parts = split_char(lines[i].as_str(), '|');
                    if parts.len() == 5 {
                        bad = bad + 1;
                    }
                },
            }
            i = i + 1;
        }
        if max_seen > self.last_id {
            self.last_id = max_seen;
        }
        proof {
            lemma_store_view(*old(self));
            lemma_store_view(*self);
            assert(lseq.subrange(0, nl as int) =~= lseq);
            assert(self@.events =~= load_t(old(self)@, content@).events);
        }
        bad
    }
}

} // verus!
