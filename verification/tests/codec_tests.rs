use calendar::codec::{parse_line, render_line};
use calendar::event::Event;
use calendar::numeric::{parse_u64, u64_to_string};
use calendar::store::Store;

fn three_event_store() -> Store {
    let mut s = Store::new();
    s.create("A".to_string(), "2025-02-01".to_string(), "10:00".to_string(), "x".to_string());
    s.create("B".to_string(), "2025-02-01".to_string(), "09:00".to_string(), "y".to_string());
    s.create("C".to_string(), "2025-01-31".to_string(), "23:59".to_string(), "z".to_string());
    s
}

#[test]
fn save_writes_the_exact_file() {
    let s = three_event_store();
    assert_eq!(
        s.save_to_string(),
        "1|A|2025-02-01|10:00|x\n2|B|2025-02-01|09:00|y\n3|C|2025-01-31|23:59|z\n"
    );
}

#[test]
fn save_then_load_round_trips() {
    let s = three_event_store();
    let text = s.save_to_string();
    let mut fresh = Store::new();
    let bad = fresh.load_from_str(&text);
    assert_eq!(bad, 0);
    assert_eq!(fresh.last_id(), 3);
    let a = s.list();
    let b = fresh.list();
    assert_eq!(a.len(), b.len());
    for i in 0..a.len() {
        assert_eq!(a[i].id, b[i].id);
        assert_eq!(a[i].title, b[i].title);
        assert_eq!(a[i].date, b[i].date);
        assert_eq!(a[i].time, b[i].time);
        assert_eq!(a[i].description, b[i].description);
    }
}

#[test]
fn load_tolerates_garbage_lines() {
    let text = "1|ok|2025-01-01|08:00|first\n\
                a|b|c\n\
                oops|bad|2025-01-02|09:00|id is not a number\n\
                7|late|2025-03-01|10:00|second\n";
    let mut s = Store::new();
    let bad = s.load_from_str(text);
    assert_eq!(bad, 1);
    let events = s.list();
    assert_eq!(events.len(), 2);
    assert_eq!(events[0].id, 1);
    assert_eq!(events[1].id, 7);
    assert_eq!(s.last_id(), 7);
}

#[test]
fn load_preserves_the_id_space() {
    let mut s = Store::new();
    s.create("a".to_string(), "d".to_string(), "t".to_string(), "x".to_string());
    s.load_from_str("9|loaded|2025-01-01|08:00|big id\n");
    assert_eq!(s.last_id(), 9);
    let id = s.create("b".to_string(), "d".to_string(), "t".to_string(), "y".to_string());
    assert_eq!(id, 10);
}

#[test]
fn load_keeps_a_larger_prior_id_space() {
    let mut s = Store::new();
    for _ in 0..5 {
        s.create("a".to_string(), "d".to_string(), "t".to_string(), "x".to_string());
    }
    s.load_from_str("2|small|2025-01-01|08:00|old id\n");
    assert_eq!(s.last_id(), 5);
    let id = s.create("b".to_string(), "d".to_string(), "t".to_string(), "y".to_string());
    assert_eq!(id, 6);
}

#[test]
fn load_of_empty_content_adds_nothing() {
    let mut s = Store::new();
    let bad = s.load_from_str("");
    assert_eq!(bad, 0);
    assert_eq!(s.list().len(), 0);
    assert_eq!(s.last_id(), 0);
}

#[test]
fn load_appends_after_existing_events() {
    let mut s = Store::new();
    s.create("first".to_string(), "d".to_string(), "t".to_string(), "x".to_string());
    s.load_from_str("3|loaded|2025-01-01|08:00|y\n");
    let events = s.list();
    assert_eq!(events.len(), 2);
    assert_eq!(events[0].title, "first");
    assert_eq!(events[1].title, "loaded");
}

#[test]
fn parse_line_accepts_exactly_five_fields() {
    let e = parse_line("12|title|2025-06-07|08:09|words here").unwrap();
    assert_eq!(e.id, 12);
    assert_eq!(e.title, "title");
    assert_eq!(e.date, "2025-06-07");
    assert_eq!(e.time, "08:09");
    assert_eq!(e.description, "words here");
    assert!(parse_line("1|too|few|fields").is_none());
    assert!(parse_line("1|too|many|fields|here|extra").is_none());
    assert!(parse_line("oops|a|b|c|d").is_none());
    assert!(parse_line("").is_none());
}

#[test]
fn parse_line_keeps_empty_fields_verbatim() {
    let e = parse_line("5||||").unwrap();
    assert_eq!(e.id, 5);
    assert_eq!(e.title, "");
    assert_eq!(e.description, "");
}

#[test]
fn render_line_joins_the_five_fields() {
    let e = Event {
        id: 42,
        title: "tea".to_string(),
        date: "2025-12-24".to_string(),
        time: "16:00".to_string(),
        description: "with lemon".to_string(),
    };
    assert_eq!(render_line(&e), "42|tea|2025-12-24|16:00|with lemon");
}

#[test]
fn u64_rendering_and_parsing_round_trip() {
    for n in [0u64, 1, 9, 10, 99, 100, 12345, u64::MAX] {
        let s = u64_to_string(n);
        assert_eq!(s, n.to_string());
        assert_eq!(parse_u64(&s), Some(n));
    }
}

#[test]
fn parse_u64_matches_the_standard_parser() {
    assert_eq!(parse_u64("+17"), Some(17));
    assert_eq!(parse_u64(""), None);
    assert_eq!(parse_u64("+"), None);
    assert_eq!(parse_u64("-3"), None);
    assert_eq!(parse_u64("12x"), None);
    assert_eq!(parse_u64(" 12"), None);
    assert_eq!(parse_u64("18446744073709551615"), Some(u64::MAX));
    assert_eq!(parse_u64("18446744073709551616"), None);
    assert_eq!(parse_u64("99999999999999999999999"), None);
}
