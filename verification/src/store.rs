//! The in-memory event store: a sequence of events ordered by insertion
//! together with a monotonic id allocator, offering create, delete, update,
//! get, list, search and the chronological upcoming query.

use vstd::prelude::*;
use crate::event::{Event, EventView};
use crate::strutil::{lex_lt, is_substr, str_lt, str_eq, contains_sub};

verus! {

/// The views of a sequence of events, in order.
pub open spec fn views_of(s: Seq<Event>) -> Seq<EventView> {
    s.map_values(|e: Event| e@)
}

/// The mathematical model of a `Store`.
#[verifier::ext_equal]
pub ghost struct StoreView {
    pub events: Seq<EventView>,
    pub last_id: u64,
}

impl StoreView {
    /// The store's invariant: every id is at most `last_id`, and ids are
    /// pairwise distinct.
    pub open spec fn wf(self) -> bool {
        &&& forall|i: int|
            0 <= i < self.events.len() ==> (#[trigger] self.events[i]).id <= self.last_id
        &&& forall|i: int, j: int|
            #![trigger self.events[i].id, self.events[j].id]
            0 <= i < j < self.events.len() ==> self.events[i].id != self.events[j].id
    }
}

/// The index of the first event carrying `id`, or -1 when there is none.
pub open spec fn index_of_id(events: Seq<EventView>, id: u64) -> int
    decreases events.len(),
{
    if events.len() == 0 {
        -1
    } else if events[0].id == id {
        0
    } else {
        let r = index_of_id(events.drop_first(), id);
        if r < 0 {
            -1
        } else {
            r + 1
        }
    }
}

/// Some event in `events` carries `id`.
pub open spec fn has_id(events: Seq<EventView>, id: u64) -> bool {
    index_of_id(events, id) >= 0
}

/// What `index_of_id` means: -1 exactly when no event carries the id, and
/// otherwise the first position that does.
pub proof fn lemma_index_of_id(events: Seq<EventView>, id: u64)
    ensures
        !has_id(events, id) ==> forall|i: int|
            0 <= i < events.len() ==> (#[trigger] events[i]).id != id,
        has_id(events, id) ==> {
            let r = index_of_id(events, id);
            &&& 0 <= r < events.len()
            &&& events[r].id == id
            &&& forall|i: int| 0 <= i < r ==> (#[trigger] events[i]).id != id
        },
    decreases events.len(),
{
    if events.len() > 0 && events[0].id != id {
        let d = events.drop_first();
        lemma_index_of_id(d, id);
        if !has_id(d, id) {
            assert forall|i: int| 0 <= i < events.len() implies (#[trigger] events[i]).id
                != id by {
                if i >= 1 {
                    assert(events[i] == d[i - 1]);
                }
            }
        } else {
            let r = index_of_id(d, id);
            assert(events[r + 1] == d[r]);
            assert forall|i: int| 0 <= i < r + 1 implies (#[trigger] events[i]).id != id by {
                if i >= 1 {
                    assert(events[i] == d[i - 1]);
                }
            }
        }
    }
}

/// When no event carries the id, `index_of_id` reports so.
pub proof fn lemma_index_of_id_absent(events: Seq<EventView>, id: u64)
    requires
        forall|i: int| 0 <= i < events.len() ==> (#[trigger] events[i]).id != id,
    ensures
        !has_id(events, id),
    decreases events.len(),
{
    if events.len() > 0 {
        let d = events.drop_first();
        assert forall|i: int| 0 <= i < d.len() implies (#[trigger] d[i]).id != id by {
            assert(d[i] == events[i + 1]);
        }
        lemma_index_of_id_absent(d, id);
    }
}

/// `index_of_id` returns the position of the first match.
pub proof fn lemma_index_of_id_at(events: Seq<EventView>, id: u64, i: int)
    requires
        0 <= i < events.len(),
        events[i].id == id,
        forall|j: int| 0 <= j < i ==> (#[trigger] events[j]).id != id,
    ensures
        index_of_id(events, id) == i,
    decreases events.len(),
{
    if i > 0 {
        lemma_index_of_id_at(events.drop_first(), id, i - 1);
    }
}

// ---------------------------------------------------------------------------
// Transitions, field update and ordering used by the contracts
// ---------------------------------------------------------------------------

/// The store after `create`: one fresh event appended, carrying the next id.
pub open spec fn create_t(
    s: StoreView,
    title: Seq<char>,
    date: Seq<char>,
    time: Seq<char>,
    description: Seq<char>,
) -> StoreView
    recommends
        s.last_id < u64::MAX,
{
    StoreView {
        events: s.events.push(
            EventView { id: (s.last_id + 1) as u64, title, date, time, description },
        ),
        last_id: (s.last_id + 1) as u64,
    }
}

/// The store after `delete`: the first event carrying the id removed, or the
/// store unchanged when there is none.
pub open spec fn delete_t(s: StoreView, id: u64) -> StoreView {
    if has_id(s.events, id) {
        StoreView { events: s.events.remove(index_of_id(s.events, id)), last_id: s.last_id }
    } else {
        s
    }
}

/// A field after `update`: replaced when a nonempty replacement is present,
/// kept otherwise.
pub open spec fn upd_field(cur: Seq<char>, o: Option<Seq<char>>) -> Seq<char> {
    match o {
        Some(s) => if s.len() > 0 {
            s
        } else {
            cur
        },
        None => cur,
    }
}

/// An event after `update` of its four text fields; the id never changes.
pub open spec fn apply_update(
    e: EventView,
    t: Option<Seq<char>>,
    d: Option<Seq<char>>,
    ti: Option<Seq<char>>,
    de: Option<Seq<char>>,
) -> EventView {
    EventView {
        id: e.id,
        title: upd_field(e.title, t),
        date: upd_field(e.date, d),
        time: upd_field(e.time, ti),
        description: upd_field(e.description, de),
    }
}

/// The store after `update`: the first event carrying the id rewritten in
/// place, or the store unchanged when there is none.
pub open spec fn update_t(
    s: StoreView,
    id: u64,
    t: Option<Seq<char>>,
    d: Option<Seq<char>>,
    ti: Option<Seq<char>>,
    de: Option<Seq<char>>,
) -> StoreView {
    if has_id(s.events, id) {
        let i = index_of_id(s.events, id);
        StoreView {
            events: s.events.update(i, apply_update(s.events[i], t, d, ti, de)),
            last_id: s.last_id,
        }
    } else {
        s
    }
}

/// The view of an optional replacement string.
pub open spec fn opt_view(o: Option<String>) -> Option<Seq<char>> {
    match o {
        Some(s) => Some(s@),
        None => None,
    }
}

/// Strict chronological order on events by their `(date, time)` strings,
/// compared lexicographically.
pub open spec fn key_lt(a: EventView, b: EventView) -> bool {
    lex_lt(a.date, b.date) || (a.date == b.date && lex_lt(a.time, b.time))
}

/// `e` lies at or after the instant `(now_date, now_time)`: its date is
/// later, or its date is today and its time has not yet passed.
pub open spec fn is_upcoming(e: EventView, now_date: Seq<char>, now_time: Seq<char>) -> bool {
    lex_lt(now_date, e.date) || (e.date == now_date && !lex_lt(e.time, now_time))
}

/// `q` occurs in the event's title or description.
pub open spec fn event_matches(e: EventView, q: Seq<char>) -> bool {
    is_substr(e.title, q) || is_substr(e.description, q)
}

/// The events matching `q`, in their original order.
pub open spec fn filter_matching(events: Seq<EventView>, q: Seq<char>) -> Seq<EventView>
    decreases events.len(),
{
    if events.len() == 0 {
        Seq::empty()
    } else {
        let rest = filter_matching(events.drop_last(), q);
        if event_matches(events.last(), q) {
            rest.push(events.last())
        } else {
            rest
        }
    }
}

/// The upcoming events, in their original order.
pub open spec fn filter_upcoming(
    events: Seq<EventView>,
    now_date: Seq<char>,
    now_time: Seq<char>,
) -> Seq<EventView>
    decreases events.len(),
{
    if events.len() == 0 {
        Seq::empty()
    } else {
        let rest = filter_upcoming(events.drop_last(), now_date, now_time);
        if is_upcoming(events.last(), now_date, now_time) {
            rest.push(events.last())
        } else {
            rest
        }
    }
}

/// Insert `e` into `s` directly before the first element strictly after it,
/// so that an element inserted later lands after every element it ties with.
pub open spec fn insert_by_key(e: EventView, s: Seq<EventView>) -> Seq<EventView>
    decreases s.len(),
{
    if s.len() == 0 {
        seq![e]
    } else if key_lt(e, s[0]) {
        seq![e] + s
    } else {
        seq![s[0]] + insert_by_key(e, s.drop_first())
    }
}

/// Stable insertion sort by `(date, time)`: elements are taken in their
/// original order, and each lands after all elements it ties with.
pub open spec fn sort_by_key(s: Seq<EventView>) -> Seq<EventView>
    decreases s.len(),
{
    if s.len() == 0 {
        Seq::empty()
    } else {
        insert_by_key(s.last(), sort_by_key(s.drop_last()))
    }
}

/// Inserting at the first position whose element is strictly after `e` is
/// what `insert_by_key` does.
pub proof fn lemma_insert_by_key_at(e: EventView, s: Seq<EventView>, idx: int)
    requires
        0 <= idx <= s.len(),
        forall|j: int| 0 <= j < idx ==> !key_lt(e, #[trigger] s[j]),
        idx < s.len() ==> key_lt(e, s[idx]),
    ensures
        insert_by_key(e, s) == s.subrange(0, idx) + seq![e] + s.subrange(idx, s.len() as int),
    decreases s.len(),
{
    if s.len() == 0 {
        assert(s.subrange(0, 0) =~= Seq::<EventView>::empty());
        assert(insert_by_key(e, s) =~= s.subrange(0, 0) + seq![e] + s.subrange(0, 0));
    } else if key_lt(e, s[0]) {
        assert(idx == 0);
        assert(s.subrange(0, 0) =~= Seq::<EventView>::empty());
        assert(s.subrange(0, s.len() as int) =~= s);
        assert(seq![e] + s =~= s.subrange(0, 0) + seq![e] + s.subrange(0, s.len() as int));
    } else {
        assert(idx >= 1);
        let d = s.drop_first();
        assert forall|j: int| 0 <= j < idx - 1 implies !key_lt(e, #[trigger] d[j]) by {
            assert(d[j] == s[j + 1]);
        }
        lemma_insert_by_key_at(e, d, idx - 1);
        assert(seq![s[0]] + (d.subrange(0, idx - 1) + seq![e] + d.subrange(idx - 1, d.len() as int))
            =~= s.subrange(0, idx) + seq![e] + s.subrange(idx, s.len() as int));
    }
}

// ---------------------------------------------------------------------------
// The store itself
// ---------------------------------------------------------------------------

/// The in-memory event collection with its id allocator.
pub struct Store {
    pub(crate) last_id: u64,
    pub(crate) events: Vec<Event>,
}

impl View for Store {
    type V = StoreView;

    closed spec fn view(&self) -> StoreView {
        StoreView { events: views_of(self.events@), last_id: self.last_id }
    }
}

/// What the store's view is made of, for the crate's other modules.
pub(crate) proof fn lemma_store_view(s: Store)
    ensures
        s@.events == views_of(s.events@),
        s@.last_id == s.last_id,
{
}

impl Store {
    /// The store's invariant; every operation preserves it.
    pub open spec fn wf(&self) -> bool {
        self@.wf()
    }

    /// A fresh, empty store; the first created event gets id 1.
    pub fn new() -> (r: Store)
        ensures
            r@.events == Seq::<EventView>::empty(),
            r@.last_id == 0,
            r.wf(),
    {
        let r = Store { last_id: 0, events: Vec::new() };
        proof {
            assert(views_of(r.events@) =~= Seq::<EventView>::empty());
        }
        r
    }

    /// The position of the first event carrying `id`, if any.
    fn position_of(&self, id: u64) -> (r: Option<usize>)
        ensures
            match r {
                Some(i) => {
                    &&& has_id(self@.events, id)
                    &&& index_of_id(self@.events, id) == i
                    &&& i < self@.events.len()
                    &&& self@.events[i as int].id == id
                },
                None => !has_id(self@.events, id),
            },
    {
        let n = self.events.len();
        let mut i: usize = 0;
        while i < n
            invariant
                n == self.events@.len(),
                0 <= i <= n,
                forall|j: int| 0 <= j < i ==> (#[trigger] views_of(self.events@)[j]).id != id,
            decreases n - i,
        {
            if self.events[i].id == id {
                proof {
                    lemma_index_of_id_at(self@.events, id, i as int);
                }
                return Some(i);
            }
            i = i + 1;
        }
        proof {
            lemma_index_of_id(self@.events, id);
            if has_id(self@.events, id) {
                let r = index_of_id(self@.events, id);
                assert(self@.events[r].id == id);
            }
        }
        None
    }

    /// Creates a new event with the next id and appends it; never fails.
    pub fn create(
        &mut self,
        title: String,
        date: String,
        time: String,
        description: String,
    ) -> (id: u64)
        requires
            old(self)@.last_id < u64::MAX,
        ensures
            id == old(self)@.last_id + 1,
            final(self)@ == create_t(old(self)@, title@, date@, time@, description@),
            old(self).wf() ==> final(self).wf(),
    {
        self.last_id = self.last_id + 1;
        let id = self.last_id;
        let e = Event { id, title, date, time, description };
        let ghost ev = e@;
        self.events.push(e);
        proof {
            assert(views_of(self.events@) =~= views_of(old(self).events@).push(ev));
            if old(self).wf() {
                let s = self@;
                let olds = old(self)@;
                assert forall|i: int| 0 <= i < s.events.len() implies (#[trigger] s.events[i]).id
                    <= s.last_id by {
                    if i < s.events.len() - 1 {
                        assert(s.events[i] == olds.events[i]);
                    }
                }
                assert forall|a: int, b: int|
                    #![trigger s.events[a].id, s.events[b].id]
                    0 <= a < b < s.events.len() implies s.events[a].id != s.events[b].id by {
                    assert(s.events[a] == olds.events[a]);
                    if b < s.events.len() - 1 {
                        assert(s.events[b] == olds.events[b]);
                    } else {
                        assert(s.events[b].id == olds.last_id + 1);
                        assert(olds.events[a].id <= olds.last_id);
                    }
                }
            }
        }
        id
    }

    /// Removes the first (and by the invariant only) event carrying `id`;
    /// reports whether one was found, and changes nothing when none was.
    pub fn delete(&mut self, id: u64) -> (found: bool)
        ensures
            found == has_id(old(self)@.events, id),
            final(self)@ == delete_t(old(self)@, id),
            old(self).wf() ==> final(self).wf(),
    {
        match self.position_of(id) {
            Some(i) => {
                self.events.remove(i);
                proof {
                    let evs = views_of(old(self).events@);
                    assert(views_of(self.events@) =~= evs.remove(i as int));
                    if old(self).wf() {
                        let s = self@;
                        assert forall|a: int, b: int|
                            #![trigger s.events[a].id, s.events[b].id]
                            0 <= a < b < s.events.len() implies s.events[a].id
                            != s.events[b].id by {
                            let a0 = if a < i { a } else { a + 1 };
                            let b0 = if b < i { b } else { b + 1 };
                            assert(s.events[a] == evs[a0]);
                            assert(s.events[b] == evs[b0]);
                        }
                        assert forall|a: int| 0 <= a < s.events.len() implies (
                        #[trigger] s.events[a]).id <= s.last_id by {
                            let a0 = if a < i { a } else { a + 1 };
                            assert(s.events[a] == evs[a0]);
                        }
                    }
                }
                true
            },
            None => false,
        }
    }

    /// Rewrites the four text fields of the event carrying `id`: a present,
    /// nonempty replacement overwrites the field; an absent or empty one
    /// keeps the current value. The id itself never changes. Reports whether
    /// the event was found, and changes nothing when it was not.
    pub fn update(
        &mut self,
        id: u64,
        title: Option<String>,
        date: Option<String>,
        time: Option<String>,
        description: Option<String>,
    ) -> (found: bool)
        ensures
            found == has_id(old(self)@.events, id),
            final(self)@ == update_t(
                old(self)@,
                id,
                opt_view(title),
                opt_view(date),
                opt_view(time),
                opt_view(description),
            ),
            old(self).wf() ==> final(self).wf(),
    {
        match self.position_of(id) {
            Some(i) => {
                let cur = self.events.remove(i);
                let ghost mid = self.events@;
                let newe = Event {
                    id: cur.id,
                    title: keep_or(cur.title, title),
                    date: keep_or(cur.date, date),
                    time: keep_or(cur.time, time),
                    description: keep_or(cur.description, description),
                };
                let ghost nv = newe@;
                self.events.insert(i, newe);
                proof {
                    let evs = views_of(old(self).events@);
                    assert(self.events@ =~= old(self).events@.remove(i as int).insert(
                        i as int,
                        newe,
                    ));
                    assert(views_of(self.events@) =~= evs.update(i as int, nv));
                    assert(nv == apply_update(
                        evs[i as int],
                        opt_view(title),
                        opt_view(date),
                        opt_view(time),
                        opt_view(description),
                    ));
                    if old(self).wf() {
                        let s = self@;
                        assert forall|a: int, b: int|
                            #![trigger s.events[a].id, s.events[b].id]
                            0 <= a < b < s.events.len() implies s.events[a].id
                            != s.events[b].id by {
                            assert(s.events[a].id == evs[a].id);
                            assert(s.events[b].id == evs[b].id);
                        }
                        assert forall|a: int| 0 <= a < s.events.len() implies (
                        #[trigger] s.events[a]).id <= s.last_id by {
                            assert(s.events[a].id == evs[a].id);
                        }
                    }
                }
                true
            },
            None => false,
        }
    }

    /// A read-only view of the event carrying `id`, or nothing.
    pub fn get(&self, id: u64) -> (r: Option<&Event>)
        ensures
            match r {
                Some(e) => has_id(self@.events, id) && e@ == self@.events[index_of_id(
                    self@.events,
                    id,
                )],
                None => !has_id(self@.events, id),
            },
    {
        match self.position_of(id) {
            Some(i) => Some(&self.events[i]),
            None => None,
        }
    }

    /// The largest id ever assigned or observed: the id allocator's state.
    pub fn last_id(&self) -> (r: u64)
        ensures
            r == self@.last_id,
    {
        self.last_id
    }

    /// All events, in insertion order.
    pub fn list(&self) -> (r: &Vec<Event>)
        ensures
            views_of(r@) == self@.events,
    {
        &self.events
    }

    /// Every event whose title or description contains `query`, in insertion
    /// order; the empty query matches every event.
    pub fn search(&self, query: &str) -> (r: Vec<Event>)
        ensures
            views_of(r@) == filter_matching(self@.events, query@),
    {
        let mut out: Vec<Event> = Vec::new();
        let n = self.events.len();
        let mut i: usize = 0;
        proof {
            assert(views_of(out@) =~= Seq::<EventView>::empty());
            assert(views_of(self.events@).subrange(0, 0) =~= Seq::<EventView>::empty());
        }
        while i < n
            invariant
                n == self.events@.len(),
                0 <= i <= n,
                views_of(out@) == filter_matching(
                    views_of(self.events@).subrange(0, i as int),
                    query@,
                ),
            decreases n - i,
        {
            let ghost evs = views_of(self.events@);
            let ghost before = out@;
            let e = &self.events[i];
            if contains_sub(e.title.as_str(), query) || contains_sub(
                e.description.as_str(),
                query,
            ) {
                out.push(e.copy_of());
            }
            proof {
                assert(evs.subrange(0, i + 1).drop_last() =~= evs.subrange(0, i as int));
                assert(evs.subrange(0, i + 1).last() == evs[i as int]);
                if event_matches(evs[i as int], query@) {
                    assert(views_of(out@) =~= views_of(before).push(evs[i as int]));
                }
            }
            i = i + 1;
        }
        proof {
            assert(views_of(self.events@).subrange(0, n as int) =~= views_of(self.events@));
        }
        out
    }

    /// Every event at or after `(now_date, now_time)`, sorted ascending by
    /// `(date, time)` with insertion order kept between ties.
    pub fn upcoming(&self, now_date: &str, now_time: &str) -> (r: Vec<Event>)
        ensures
            views_of(r@) == sort_by_key(filter_upcoming(self@.events, now_date@, now_time@)),
    {
        let mut kept: Vec<Event> = Vec::new();
        let n = self.events.len();
        let mut i: usize = 0;
        proof {
            assert(views_of(kept@) =~= Seq::<EventView>::empty());
            assert(views_of(self.events@).subrange(0, 0) =~= Seq::<EventView>::empty());
        }
        while i < n
            invariant
                n == self.events@.len(),
                0 <= i <= n,
                views_of(kept@) == filter_upcoming(
                    views_of(self.events@).subrange(0, i as int),
                    now_date@,
                    now_time@,
                ),
            decreases n - i,
        {
            let ghost evs = views_of(self.events@);
            let ghost before = kept@;
            let e = &self.events[i];
            if str_lt(now_date, e.date.as_str()) || (str_eq(e.date.as_str(), now_date) && !str_lt(
                e.time.as_str(),
                now_time,
            )) {
                kept.push(e.copy_of());
            }
            proof {
                assert(evs.subrange(0, i + 1).drop_last() =~= evs.subrange(0, i as int));
                assert(evs.subrange(0, i + 1).last() == evs[i as int]);
                if is_upcoming(evs[i as int], now_date@, now_time@) {
                    assert(views_of(kept@) =~= views_of(before).push(evs[i as int]));
                }
            }
            i = i + 1;
        }
        proof {
            assert(views_of(self.events@).subrange(0, n as int) =~= views_of(self.events@));
        }
        let mut out: Vec<Event> = Vec::new();
        let m = kept.len();
        let mut k: usize = 0;
        proof {
            assert(views_of(out@) =~= Seq::<EventView>::empty());
            assert(views_of(kept@).subrange(0, 0) =~= Seq::<EventView>::empty());
        }
        while k < m
            invariant
                m == kept@.len(),
                0 <= k <= m,
                views_of(kept@) == filter_upcoming(
                    views_of(self.events@),
                    now_date@,
                    now_time@,
                ),
                views_of(out@) == sort_by_key(views_of(kept@).subrange(0, k as int)),
            decreases m - k,
        {
            let ghost sorted_before = views_of(out@);
            let e = &kept[k];
            let idx = insertion_index(&out, e);
            proof {
                lemma_insert_by_key_at(e@, sorted_before, idx as int);
            }
            out.insert(idx, e.copy_of());
            proof {
                let kvs = views_of(kept@);
                assert(views_of(out@) =~= sorted_before.subrange(0, idx as int) + seq![e@]
                    + sorted_before.subrange(idx as int, sorted_before.len() as int));
                assert(views_of(out@) == insert_by_key(e@, sorted_before));
                assert(kvs.subrange(0, k + 1).drop_last() =~= kvs.subrange(0, k as int));
                assert(kvs.subrange(0, k + 1).last() == kvs[k as int]);
            }
            k = k + 1;
        }
        proof {
            assert(views_of(kept@).subrange(0, m as int) =~= views_of(kept@));
        }
        out
    }
}

/// The position directly before the first element strictly after `e`: where
/// a stable insertion sort puts `e`.
fn insertion_index(out: &Vec<Event>, e: &Event) -> (idx: usize)
    ensures
        0 <= idx <= out@.len(),
        forall|j: int| 0 <= j < idx ==> !key_lt(e@, #[trigger] views_of(out@)[j]),
        idx < out@.len() ==> key_lt(e@, views_of(out@)[idx as int]),
{
    let n = out.len();
    let mut idx: usize = 0;
    while idx < n
        invariant
            n == out@.len(),
            0 <= idx <= n,
            forall|j: int| 0 <= j < idx ==> !key_lt(e@, #[trigger] views_of(out@)[j]),
        decreases n - idx,
    {
        let o = &out[idx];
        if str_lt(e.date.as_str(), o.date.as_str()) || (str_eq(e.date.as_str(), o.date.as_str())
            && str_lt(e.time.as_str(), o.time.as_str())) {
            return idx;
        }
        idx = idx + 1;
    }
    idx
}

/// `cur` when the replacement is absent or empty, the replacement otherwise.
fn keep_or(cur: String, o: Option<String>) -> (r: String)
    ensures
        r@ == upd_field(cur@, opt_view(o)),
{
    match o {
        Some(s) => if s.as_str().is_empty() {
            cur
        } else {
            s
        },
        None => cur,
    }
}

} // verus!
