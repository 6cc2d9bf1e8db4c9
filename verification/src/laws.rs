//! The library's laws, each proved from the contracts of the operations it
//! speaks of: the id allocator's behaviour over any run of creates, what load
//! does to the id space, the save/load round trip, and the shape of what the
//! queries return.

use vstd::prelude::*;
use vstd::multiset::Multiset;
use vstd::seq_lib::lemma_multiset_commutative;
use crate::codec::{
    fields_clean, file_of, line_of, load_events_v, load_t, max_id_of, parse_line_v, parsed_events,
};
use crate::event::EventView;
use crate::numeric::{dec_of, is_digit, lemma_dec_of_digits, lemma_parse_dec_round_trip};
use crate::store::{
    apply_update, create_t, delete_t, filter_matching, filter_upcoming, has_id, index_of_id,
    insert_by_key, is_upcoming, key_lt, lemma_index_of_id, lemma_index_of_id_absent, sort_by_key,
    StoreView,
};
use crate::strutil::{
    is_substr, lemma_lex_lt_irrefl, lemma_lex_lt_trans, lemma_split_on_concat,
    lemma_split_on_no_sep, lex_lt, split_on,
};

verus! {

// ---------------------------------------------------------------------------
// Chronological order of events
// ---------------------------------------------------------------------------

/// `a` comes no later than `b`: chronological non-strict order by
/// `(date, time)`.
pub open spec fn key_le(a: EventView, b: EventView) -> bool {
    !key_lt(b, a)
}

/// Every pair of the sequence is in chronological order.
pub open spec fn sorted_by_key(s: Seq<EventView>) -> bool {
    forall|i: int, j: int|
        #![trigger s[i], s[j]]
        0 <= i < j < s.len() ==> key_le(s[i], s[j])
}

/// No event is strictly before itself.
pub proof fn lemma_key_lt_irrefl(a: EventView)
    ensures
        !key_lt(a, a),
{
    lemma_lex_lt_irrefl(a.date);
    lemma_lex_lt_irrefl(a.time);
}

/// Strict chronological order of events is transitive.
pub proof fn lemma_key_lt_trans(a: EventView, b: EventView, c: EventView)
    requires
        key_lt(a, b),
        key_lt(b, c),
    ensures
        key_lt(a, c),
{
    if lex_lt(a.date, b.date) && lex_lt(b.date, c.date) {
        lemma_lex_lt_trans(a.date, b.date, c.date);
    } else if a.date == b.date && b.date == c.date {
        lemma_lex_lt_trans(a.time, b.time, c.time);
    }
}

/// Where a stable insertion places the new element: directly before the
/// first element strictly after it.
pub open spec fn insertion_point(e: EventView, s: Seq<EventView>) -> int
    decreases s.len(),
{
    if s.len() == 0 {
        0
    } else if key_lt(e, s[0]) {
        0
    } else {
        1 + insertion_point(e, s.drop_first())
    }
}

/// The insertion point splits the sequence into the elements not after `e`
/// and the first element strictly after it.
pub proof fn lemma_insertion_point(e: EventView, s: Seq<EventView>)
    ensures
        0 <= insertion_point(e, s) <= s.len(),
        forall|j: int| 0 <= j < insertion_point(e, s) ==> !key_lt(e, #[trigger] s[j]),
        insertion_point(e, s) < s.len() ==> key_lt(e, s[insertion_point(e, s)]),
        insert_by_key(e, s) == s.subrange(0, insertion_point(e, s)) + seq![e] + s.subrange(
            insertion_point(e, s),
            s.len() as int,
        ),
    decreases s.len(),
{
    let ip = insertion_point(e, s);
    if s.len() == 0 || key_lt(e, s[0]) {
    } else {
        let d = s.drop_first();
        lemma_insertion_point(e, d);
        assert forall|j: int| 0 <= j < ip implies !key_lt(e, #[trigger] s[j]) by {
            if j >= 1 {
                assert(s[j] == d[j - 1]);
            }
        }
        if ip < s.len() {
            assert(s[ip] == d[ip - 1]);
        }
    }
    crate::store::lemma_insert_by_key_at(e, s, ip);
}

/// Inserting into a sorted sequence keeps it sorted.
pub proof fn lemma_insert_by_key_sorted(e: EventView, s: Seq<EventView>)
    requires
        sorted_by_key(s),
    ensures
        sorted_by_key(insert_by_key(e, s)),
{
    lemma_insertion_point(e, s);
    let ip = insertion_point(e, s);
    let r = insert_by_key(e, s);
    assert forall|i: int, j: int|
        #![trigger r[i], r[j]]
        0 <= i < j < r.len() implies key_le(r[i], r[j]) by {
        let oi = if i < ip {
            i
        } else {
            i - 1
        };
        let oj = if j < ip {
            j
        } else {
            j - 1
        };
        if i == ip && j == ip {
        } else if i == ip {
            // r[i] is e, r[j] is s[oj] with ip <= oj < s.len()
            assert(r[j] == s[oj]);
            if key_lt(s[oj], e) {
                assert(key_lt(e, s[ip]));
                lemma_key_lt_trans(s[oj], e, s[ip]);
                if oj == ip {
                    lemma_key_lt_irrefl(s[ip]);
                } else {
                    assert(key_le(s[ip], s[oj]));
                }
                assert(false);
            }
        } else if j == ip {
            // r[i] is s[oi] with oi < ip, so !key_lt(e, s[oi])
            assert(r[i] == s[oi]);
            assert(!key_lt(e, s[oi]));
        } else {
            assert(r[i] == s[oi]);
            assert(r[j] == s[oj]);
        }
    }
}

/// The sorted sequence is sorted.
pub proof fn lemma_sort_by_key_sorted(s: Seq<EventView>)
    ensures
        sorted_by_key(sort_by_key(s)),
    decreases s.len(),
{
    if s.len() > 0 {
        lemma_sort_by_key_sorted(s.drop_last());
        lemma_insert_by_key_sorted(s.last(), sort_by_key(s.drop_last()));
    }
}

/// Sorting permutes: the same events come out that went in.
pub proof fn lemma_sort_by_key_multiset(s: Seq<EventView>)
    ensures
        sort_by_key(s).to_multiset() == s.to_multiset(),
    decreases s.len(),
{
    if s.len() == 0 {
        assert(s =~= Seq::<EventView>::empty());
    } else {
        let d = s.drop_last();
        lemma_sort_by_key_multiset(d);
        lemma_insert_by_key_multiset(s.last(), sort_by_key(d));
        d.to_multiset_ensures();
        assert(d.push(s.last()).to_multiset() =~= d.to_multiset().insert(s.last()));
        assert(d.push(s.last()) =~= s);
        assert(s.to_multiset() == d.to_multiset().insert(s.last()));
    }
}

proof fn lemma_insert_by_key_multiset(e: EventView, s: Seq<EventView>)
    ensures
        insert_by_key(e, s).to_multiset() == s.to_multiset().insert(e),
{
    lemma_insertion_point(e, s);
    let ip = insertion_point(e, s);
    let a = s.subrange(0, ip);
    let b = s.subrange(ip, s.len() as int);
    lemma_multiset_commutative(a + seq![e], b);
    lemma_multiset_commutative(a, seq![e]);
    lemma_multiset_commutative(a, b);
    assert(a + seq![e] + b == insert_by_key(e, s));
    assert(a + b =~= s);
    assert(seq![e] =~= Seq::<EventView>::empty().push(e));
    Seq::<EventView>::empty().to_multiset_ensures();
    assert(seq![e].to_multiset() =~= Multiset::<EventView>::empty().insert(e));
    assert(insert_by_key(e, s).to_multiset() =~= s.to_multiset().insert(e));
}

/// Stability: a sequence that is already in chronological order is left
/// exactly as it is, so elements with equal `(date, time)` keep their
/// relative order.
pub proof fn lemma_sort_by_key_of_sorted(s: Seq<EventView>)
    requires
        sorted_by_key(s),
    ensures
        sort_by_key(s) == s,
    decreases s.len(),
{
    if s.len() > 0 {
        let d = s.drop_last();
        assert forall|i: int, j: int|
            #![trigger d[i], d[j]]
            0 <= i < j < d.len() implies key_le(d[i], d[j]) by {
            assert(d[i] == s[i] && d[j] == s[j]);
        }
        lemma_sort_by_key_of_sorted(d);
        let e = s.last();
        assert forall|j: int| 0 <= j < d.len() implies !key_lt(e, #[trigger] d[j]) by {
            assert(d[j] == s[j]);
            assert(key_le(s[j], e));
        }
        crate::store::lemma_insert_by_key_at(e, d, d.len() as int);
        assert(d.subrange(0, d.len() as int) =~= d);
        assert(d.subrange(d.len() as int, d.len() as int) =~= Seq::<EventView>::empty());
        assert(d + seq![e] + Seq::<EventView>::empty() =~= s);
    }
}

/// The upcoming predicate, as a function value.
pub open spec fn upcoming_pred(now_date: Seq<char>, now_time: Seq<char>) -> spec_fn(
    EventView,
) -> bool {
    |e: EventView| is_upcoming(e, now_date, now_time)
}

/// What `upcoming` filters by is exactly the filter of the event sequence by
/// the upcoming predicate, in insertion order.
pub proof fn lemma_filter_upcoming_is_filter(
    events: Seq<EventView>,
    now_date: Seq<char>,
    now_time: Seq<char>,
)
    ensures
        filter_upcoming(events, now_date, now_time) == events.filter(
            upcoming_pred(now_date, now_time),
        ),
    decreases events.len(),
{
    reveal(Seq::filter);
    if events.len() == 0 {
        assert(events =~= Seq::<EventView>::empty());
    } else {
        lemma_filter_upcoming_is_filter(events.drop_last(), now_date, now_time);
        assert(upcoming_pred(now_date, now_time)(events.last()) == is_upcoming(
            events.last(),
            now_date,
            now_time,
        ));
    }
}

/// The match predicate, as a function value.
pub open spec fn matching_pred(q: Seq<char>) -> spec_fn(EventView) -> bool {
    |e: EventView| crate::store::event_matches(e, q)
}

/// What `search` filters by is exactly the filter of the event sequence by
/// the match predicate, in insertion order.
pub proof fn lemma_filter_matching_is_filter(events: Seq<EventView>, q: Seq<char>)
    ensures
        filter_matching(events, q) == events.filter(matching_pred(q)),
    decreases events.len(),
{
    reveal(Seq::filter);
    if events.len() == 0 {
        assert(events =~= Seq::<EventView>::empty());
    } else {
        lemma_filter_matching_is_filter(events.drop_last(), q);
        assert(matching_pred(q)(events.last()) == crate::store::event_matches(events.last(), q));
    }
}

/// The empty query matches every event: `search` with it returns them all.
pub proof fn lemma_search_empty_query(events: Seq<EventView>)
    ensures
        filter_matching(events, Seq::<char>::empty()) == events,
    decreases events.len(),
{
    if events.len() > 0 {
        lemma_search_empty_query(events.drop_last());
        let e = events.last();
        let q = Seq::<char>::empty();
        assert(is_substr(e.title, q)) by {
            assert(e.title.subrange(0, 0 + q.len() as int) =~= q);
        }
        assert(events.drop_last().push(e) =~= events);
    }
}

// ---------------------------------------------------------------------------
// The id allocator over any run of creates
// ---------------------------------------------------------------------------

/// The store after a run of `create` calls with the given
/// `(title, date, time, description)` quadruples, in order.
pub open spec fn apply_creates(
    s: StoreView,
    items: Seq<(Seq<char>, Seq<char>, Seq<char>, Seq<char>)>,
) -> StoreView
    decreases items.len(),
{
    if items.len() == 0 {
        s
    } else {
        let s1 = create_t(s, items[0].0, items[0].1, items[0].2, items[0].3);
        apply_creates(s1, items.drop_first())
    }
}

/// Unique, monotonic ids: any run of creates appends events whose ids are
/// consecutive from `last_id + 1`, leaves the earlier events alone, and ends
/// with `last_id` advanced by the number created.
pub proof fn lemma_create_ids(s: StoreView, items: Seq<(Seq<char>, Seq<char>, Seq<char>, Seq<char>)>)
    requires
        s.last_id + items.len() <= u64::MAX,
    ensures
        ({
            let r = apply_creates(s, items);
            &&& r.last_id == s.last_id + items.len()
            &&& r.events.len() == s.events.len() + items.len()
            &&& forall|i: int| 0 <= i < s.events.len() ==> #[trigger] r.events[i] == s.events[i]
            &&& forall|i: int|
                s.events.len() <= i < r.events.len() ==> (#[trigger] r.events[i]).id == s.last_id
                    + 1 + i - s.events.len()
        }),
    decreases items.len(),
{
    if items.len() > 0 {
        let s1 = create_t(s, items[0].0, items[0].1, items[0].2, items[0].3);
        lemma_create_ids(s1, items.drop_first());
        let r = apply_creates(s, items);
        assert(r == apply_creates(s1, items.drop_first()));
        assert(s1.events.len() == s.events.len() + 1);
        assert forall|i: int| 0 <= i < s.events.len() implies #[trigger] r.events[i]
            == s.events[i] by {
            assert(r.events[i] == s1.events[i]);
            assert(s1.events[i] == s.events[i]);
        }
        assert forall|i: int| s.events.len() <= i < r.events.len() implies (
        #[trigger] r.events[i]).id == s.last_id + 1 + i - s.events.len() by {
            if i == s.events.len() {
                assert(r.events[i] == s1.events[i]);
                assert(s1.events[i].id == s.last_id + 1);
            }
        }
    }
}

/// Each id is at most the largest, and the largest is carried by some event.
pub proof fn lemma_max_id_of_bounds(events: Seq<EventView>)
    ensures
        forall|i: int| 0 <= i < events.len() ==> (#[trigger] events[i]).id <= max_id_of(events),
        events.len() > 0 ==> exists|i: int|
            0 <= i < events.len() && (#[trigger] events[i]).id == max_id_of(events),
    decreases events.len(),
{
    if events.len() > 0 {
        let d = events.drop_last();
        lemma_max_id_of_bounds(d);
        assert forall|i: int| 0 <= i < events.len() implies (#[trigger] events[i]).id <= max_id_of(
            events,
        ) by {
            if i < events.len() - 1 {
                assert(events[i] == d[i]);
            }
        }
        if events.last().id > max_id_of(d) {
            assert(events[events.len() - 1].id == max_id_of(events));
        } else if d.len() > 0 {
            let w = choose|i: int| 0 <= i < d.len() && (#[trigger] d[i]).id == max_id_of(d);
            assert(events[w].id == max_id_of(events));
        }
    }
}

/// On a fresh store the returned ids are exactly 1, 2, 3, … in order, and
/// `last_id` always equals the number created, which is the largest id.
pub proof fn lemma_fresh_create_ids(items: Seq<(Seq<char>, Seq<char>, Seq<char>, Seq<char>)>)
    requires
        items.len() <= u64::MAX,
    ensures
        ({
            let r = apply_creates(StoreView { events: Seq::<EventView>::empty(), last_id: 0 }, items);
            &&& r.events.len() == items.len()
            &&& r.last_id == items.len()
            &&& forall|i: int| 0 <= i < items.len() ==> (#[trigger] r.events[i]).id == i + 1
            &&& items.len() > 0 ==> max_id_of(r.events) == r.last_id
        }),
{
    let fresh = StoreView { events: Seq::<EventView>::empty(), last_id: 0 };
    lemma_create_ids(fresh, items);
    let r = apply_creates(fresh, items);
    if items.len() > 0 {
        lemma_max_id_of_bounds(r.events);
        let w = choose|i: int|
            0 <= i < r.events.len() && (#[trigger] r.events[i]).id == max_id_of(r.events);
        assert(r.events[w].id == w + 1);
        assert(r.events[r.events.len() - 1].id == r.events.len());
    }
}

/// Load preserves the id space: after `load` of a file whose largest id is
/// `m`, the next `create` returns `max(m, prior_last_id) + 1`.
pub proof fn lemma_load_preserves_id_space(
    s: StoreView,
    content: Seq<char>,
    title: Seq<char>,
    date: Seq<char>,
    time: Seq<char>,
    description: Seq<char>,
)
    requires
        load_t(s, content).last_id < u64::MAX,
    ensures
        ({
            let m = max_id_of(load_events_v(content));
            let created = create_t(load_t(s, content), title, date, time, description);
            created.events.last().id == (if m > s.last_id {
                m
            } else {
                s.last_id
            }) + 1
        }),
{
}

// ---------------------------------------------------------------------------
// The save/load round trip
// ---------------------------------------------------------------------------

/// Free of line breaks.
pub open spec fn no_newline(s: Seq<char>) -> bool {
    forall|i: int| 0 <= i < s.len() ==> #[trigger] s[i] != '\n'
}

proof fn lemma_no_newline_concat(a: Seq<char>, b: Seq<char>)
    requires
        no_newline(a),
        no_newline(b),
    ensures
        no_newline(a + b),
{
    assert forall|i: int| 0 <= i < (a + b).len() implies #[trigger] (a + b)[i] != '\n' by {
        if i < a.len() {
            assert((a + b)[i] == a[i]);
        } else {
            assert((a + b)[i] == b[i - a.len()]);
        }
    }
}

/// A clean event's line holds no line break.
proof fn lemma_line_of_no_newline(e: EventView)
    requires
        fields_clean(e),
    ensures
        no_newline(line_of(e)),
{
    lemma_dec_of_digits(e.id as nat);
    let dec = dec_of(e.id as nat);
    assert forall|i: int| 0 <= i < dec.len() implies #[trigger] dec[i] != '\n' by {
        assert(is_digit(dec[i]));
    }
    let bar = seq!['|'];
    assert(no_newline(bar));
    lemma_no_newline_concat(dec, bar);
    lemma_no_newline_concat(dec + bar, e.title);
    lemma_no_newline_concat(dec + bar + e.title, bar);
    lemma_no_newline_concat(dec + bar + e.title + bar, e.date);
    lemma_no_newline_concat(dec + bar + e.title + bar + e.date, bar);
    lemma_no_newline_concat(dec + bar + e.title + bar + e.date + bar, e.time);
    lemma_no_newline_concat(dec + bar + e.title + bar + e.date + bar + e.time, bar);
    lemma_no_newline_concat(dec + bar + e.title + bar + e.date + bar + e.time + bar, e.description);
}

/// A clean event's line parses back to exactly that event.
proof fn lemma_parse_line_of(e: EventView)
    requires
        fields_clean(e),
    ensures
        parse_line_v(line_of(e)) == Some(e),
{
    lemma_dec_of_digits(e.id as nat);
    let dec = dec_of(e.id as nat);
    assert forall|i: int| 0 <= i < dec.len() implies #[trigger] dec[i] != '|' by {
        assert(is_digit(dec[i]));
    }
    let r4 = e.description;
    let r3 = e.time + seq!['|'] + r4;
    let r2 = e.date + seq!['|'] + r3;
    let r1 = e.title + seq!['|'] + r2;
    assert(line_of(e) =~= dec + seq!['|'] + r1);
    lemma_split_on_concat(dec, r1, '|');
    lemma_split_on_concat(e.title, r2, '|');
    lemma_split_on_concat(e.date, r3, '|');
    lemma_split_on_concat(e.time, r4, '|');
    lemma_split_on_no_sep(e.description, '|');
    let parts = split_on(line_of(e), '|');
    assert(parts =~= seq![dec, e.title, e.date, e.time, e.description]);
    lemma_parse_dec_round_trip(e.id);
    assert(parts[0] == dec);
    assert(parse_line_v(line_of(e)) == Some(
        EventView {
            id: e.id,
            title: e.title,
            date: e.date,
            time: e.time,
            description: e.description,
        },
    ));
    assert(EventView {
        id: e.id,
        title: e.title,
        date: e.date,
        time: e.time,
        description: e.description,
    } =~= e);
}

/// The file of a nonempty sequence starts with the first event's line.
proof fn lemma_file_of_cons(events: Seq<EventView>)
    requires
        events.len() > 0,
    ensures
        file_of(events) == line_of(events[0]) + seq!['\n'] + file_of(events.drop_first()),
    decreases events.len(),
{
    if events.len() == 1 {
        assert(events.drop_last() =~= Seq::<EventView>::empty());
        assert(events.drop_first() =~= Seq::<EventView>::empty());
        assert(events.last() == events[0]);
        assert(file_of(events) =~= line_of(events[0]) + seq!['\n'] + file_of(
            events.drop_first(),
        ));
    } else {
        let d = events.drop_last();
        lemma_file_of_cons(d);
        let df = events.drop_first();
        assert(df.drop_last() =~= d.drop_first());
        assert(df.len() > 0);
        assert(d[0] == events[0]);
        assert(df.last() == events.last());
        assert(file_of(events) =~= line_of(events[0]) + seq!['\n'] + file_of(df));
    }
}

/// Parsing a nonempty line sequence starts with the first line.
proof fn lemma_parsed_events_cons(lines: Seq<Seq<char>>)
    requires
        lines.len() > 0,
    ensures
        parsed_events(lines) == (match parse_line_v(lines[0]) {
            Some(e) => seq![e] + parsed_events(lines.drop_first()),
            None => parsed_events(lines.drop_first()),
        }),
    decreases lines.len(),
{
    if lines.len() == 1 {
        assert(lines.drop_last() =~= Seq::<Seq<char>>::empty());
        assert(lines.drop_first() =~= Seq::<Seq<char>>::empty());
        assert(lines.last() == lines[0]);
        match parse_line_v(lines[0]) {
            Some(e) => {
                assert(parsed_events(lines) =~= seq![e] + parsed_events(lines.drop_first()));
            },
            None => {
            },
        }
    } else {
        let d = lines.drop_last();
        lemma_parsed_events_cons(d);
        let df = lines.drop_first();
        assert(df.drop_last() =~= d.drop_first());
        assert(df.len() > 0);
        assert(d[0] == lines[0]);
        assert(df.last() == lines.last());
        match parse_line_v(lines[0]) {
            Some(e0) => {
                match parse_line_v(lines.last()) {
                    Some(el) => {
                        assert(parsed_events(lines) =~= seq![e0] + parsed_events(df));
                    },
                    None => {
                        assert(parsed_events(lines) =~= seq![e0] + parsed_events(df));
                    },
                }
            },
            None => {
                match parse_line_v(lines.last()) {
                    Some(el) => {
                        assert(parsed_events(lines) =~= parsed_events(df));
                    },
                    None => {
                        assert(parsed_events(lines) =~= parsed_events(df));
                    },
                }
            },
        }
    }
}

/// The round trip over the events themselves: a file written from clean
/// events loads back to exactly those events, ids, fields and order alike.
pub proof fn lemma_round_trip_events(events: Seq<EventView>)
    requires
        forall|i: int| 0 <= i < events.len() ==> fields_clean(#[trigger] events[i]),
    ensures
        load_events_v(file_of(events)) == events,
    decreases events.len(),
{
    if events.len() == 0 {
        reveal_with_fuel(parsed_events, 2);
        reveal_with_fuel(split_on, 2);
        let lines = split_on(Seq::<char>::empty(), '\n');
        assert(lines == seq![Seq::<char>::empty()]);
        assert(lines.drop_last() =~= Seq::<Seq<char>>::empty());
        assert(parsed_events(lines.drop_last()) =~= Seq::<EventView>::empty());
        assert(split_on(lines.last(), '|') == seq![Seq::<char>::empty()]);
        assert(parse_line_v(Seq::<char>::empty()) is None);
        assert(load_events_v(file_of(events)) =~= events);
    } else {
        let e0 = events[0];
        let rest = events.drop_first();
        lemma_file_of_cons(events);
        lemma_parse_line_of(e0);
        lemma_line_of_no_newline(e0);
        lemma_split_on_concat(line_of(e0), file_of(rest), '\n');
        let lines = split_on(file_of(events), '\n');
        assert(lines == seq![line_of(e0)] + split_on(file_of(rest), '\n'));
        lemma_parsed_events_cons(lines);
        assert(lines[0] == line_of(e0));
        assert(lines.drop_first() =~= split_on(file_of(rest), '\n'));
        assert forall|i: int| 0 <= i < rest.len() implies fields_clean(#[trigger] rest[i]) by {
            assert(rest[i] == events[i + 1]);
        }
        lemma_round_trip_events(rest);
        assert(load_events_v(file_of(events)) =~= events);
    }
}

/// Save/load round trip at the store level: loading a saved store's file
/// into a store without events reproduces the events exactly, and sets the
/// id allocator from them.
pub proof fn lemma_save_load_round_trip(s: StoreView, fresh: StoreView)
    requires
        forall|i: int| 0 <= i < s.events.len() ==> fields_clean(#[trigger] s.events[i]),
        fresh.events == Seq::<EventView>::empty(),
    ensures
        load_t(fresh, file_of(s.events)).events == s.events,
        load_t(fresh, file_of(s.events)).last_id == (if max_id_of(s.events) > fresh.last_id {
            max_id_of(s.events)
        } else {
            fresh.last_id
        }),
{
    lemma_round_trip_events(s.events);
    assert(fresh.events + s.events =~= s.events);
}

/// The store's invariant survives the round trip: loading a well-formed
/// store's file into a store without events is well-formed again.
pub proof fn lemma_round_trip_wf(s: StoreView, fresh: StoreView)
    requires
        s.wf(),
        forall|i: int| 0 <= i < s.events.len() ==> fields_clean(#[trigger] s.events[i]),
        fresh.events == Seq::<EventView>::empty(),
    ensures
        load_t(fresh, file_of(s.events)).wf(),
{
    lemma_save_load_round_trip(s, fresh);
    lemma_max_id_of_bounds(s.events);
    let r = load_t(fresh, file_of(s.events));
    assert(r.events == s.events);
    assert forall|i: int| 0 <= i < r.events.len() implies (#[trigger] r.events[i]).id
        <= r.last_id by {
        assert(s.events[i].id <= max_id_of(s.events));
    }
    assert forall|i: int, j: int|
        #![trigger r.events[i].id, r.events[j].id]
        0 <= i < j < r.events.len() implies r.events[i].id != r.events[j].id by {
        assert(s.events[i].id != s.events[j].id);
    }
}

// ---------------------------------------------------------------------------
// Update idempotence and delete exactness
// ---------------------------------------------------------------------------

/// The replacement leaves the field alone: absent or empty.
pub open spec fn keeps_field(o: Option<Seq<char>>) -> bool {
    match o {
        Some(s) => s.len() == 0,
        None => true,
    }
}

/// An update whose replacements are all absent or all empty leaves the event
/// exactly as it was.
pub proof fn lemma_update_all_empty(
    e: EventView,
    t: Option<Seq<char>>,
    d: Option<Seq<char>>,
    ti: Option<Seq<char>>,
    de: Option<Seq<char>>,
)
    requires
        keeps_field(t),
        keeps_field(d),
        keeps_field(ti),
        keeps_field(de),
    ensures
        apply_update(e, t, d, ti, de) == e,
{
    assert(apply_update(e, t, d, ti, de) =~= e);
}

/// Delete is exact: after a found delete, no event carries the id any more,
/// and every other event is unchanged and keeps its position relative to the
/// others.
pub proof fn lemma_delete_exact(s: StoreView, id: u64)
    requires
        s.wf(),
        has_id(s.events, id),
    ensures
        ({
            let r = delete_t(s, id);
            let idx = index_of_id(s.events, id);
            &&& r.last_id == s.last_id
            &&& r.events.len() == s.events.len() - 1
            &&& !has_id(r.events, id)
            &&& forall|j: int| 0 <= j < idx ==> #[trigger] r.events[j] == s.events[j]
            &&& forall|j: int|
                idx <= j < r.events.len() ==> #[trigger] r.events[j] == s.events[j + 1]
        }),
{
    lemma_index_of_id(s.events, id);
    let idx = index_of_id(s.events, id);
    let r = s.events.remove(idx);
    assert forall|j: int| 0 <= j < r.len() implies (#[trigger] r[j]).id != id by {
        if j < idx {
            assert(r[j] == s.events[j]);
        } else {
            assert(r[j] == s.events[j + 1]);
            assert(s.events[idx].id == id);
            assert(s.events[idx].id != s.events[j + 1].id);
        }
    }
    lemma_index_of_id_absent(r, id);
}

} // verus!
