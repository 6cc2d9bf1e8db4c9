use calendar::store::Store;

fn sample_store() -> Store {
    let mut s = Store::new();
    s.create(
        "A".to_string(),
        "2025-02-01".to_string(),
        "10:00".to_string(),
        "x".to_string(),
    );
    s.create(
        "B".to_string(),
        "2025-02-01".to_string(),
        "09:00".to_string(),
        "y".to_string(),
    );
    s.create(
        "C".to_string(),
        "2025-01-31".to_string(),
        "23:59".to_string(),
        "z".to_string(),
    );
    s
}

#[test]
fn create_then_list() {
    let mut s = Store::new();
    let id = s.create(
        "Dentist".to_string(),
        "2025-01-15".to_string(),
        "09:30".to_string(),
        "Checkup".to_string(),
    );
    assert_eq!(id, 1);
    let events = s.list();
    assert_eq!(events.len(), 1);
    assert_eq!(events[0].id, 1);
    assert_eq!(events[0].title, "Dentist");
    assert_eq!(events[0].date, "2025-01-15");
    assert_eq!(events[0].time, "09:30");
    assert_eq!(events[0].description, "Checkup");
}

#[test]
fn create_ids_are_consecutive() {
    let mut s = Store::new();
    for expected in 1..=5u64 {
        let id = s.create(
            format!("t{}", expected),
            "2025-01-01".to_string(),
            "00:00".to_string(),
            String::new(),
        );
        assert_eq!(id, expected);
        assert_eq!(s.last_id(), expected);
    }
}

#[test]
fn delete_then_get_not_found_and_others_kept() {
    let mut s = sample_store();
    assert!(s.delete(2));
    assert!(s.get(2).is_none());
    let events = s.list();
    assert_eq!(events.len(), 2);
    assert_eq!(events[0].id, 1);
    assert_eq!(events[0].title, "A");
    assert_eq!(events[1].id, 3);
    assert_eq!(events[1].title, "C");
}

#[test]
fn delete_not_found_is_non_mutating() {
    let mut s = Store::new();
    s.create("a".to_string(), "d".to_string(), "t".to_string(), "x".to_string());
    s.create("b".to_string(), "d".to_string(), "t".to_string(), "y".to_string());
    assert!(!s.delete(999));
    let events = s.list();
    assert_eq!(events.len(), 2);
    assert_eq!(events[0].title, "a");
    assert_eq!(events[1].title, "b");
    assert_eq!(s.last_id(), 2);
}

#[test]
fn deleted_ids_are_not_reused() {
    let mut s = sample_store();
    assert!(s.delete(3));
    let id = s.create("D".to_string(), "d".to_string(), "t".to_string(), "w".to_string());
    assert_eq!(id, 4);
}

#[test]
fn update_all_empty_keeps_event_identical() {
    let mut s = sample_store();
    assert!(s.update(2, None, None, None, None));
    assert!(s.update(
        2,
        Some(String::new()),
        Some(String::new()),
        Some(String::new()),
        Some(String::new())
    ));
    let e = s.get(2).unwrap();
    assert_eq!(e.id, 2);
    assert_eq!(e.title, "B");
    assert_eq!(e.date, "2025-02-01");
    assert_eq!(e.time, "09:00");
    assert_eq!(e.description, "y");
}

#[test]
fn update_overwrites_nonempty_fields_only() {
    let mut s = sample_store();
    assert!(s.update(
        1,
        Some("A2".to_string()),
        None,
        Some("11:30".to_string()),
        Some(String::new())
    ));
    let e = s.get(1).unwrap();
    assert_eq!(e.title, "A2");
    assert_eq!(e.date, "2025-02-01");
    assert_eq!(e.time, "11:30");
    assert_eq!(e.description, "x");
}

#[test]
fn update_not_found_reports_false() {
    let mut s = sample_store();
    assert!(!s.update(42, Some("nope".to_string()), None, None, None));
    assert_eq!(s.list().len(), 3);
}

#[test]
fn get_returns_the_event_with_that_id() {
    let s = sample_store();
    let e = s.get(3).unwrap();
    assert_eq!(e.title, "C");
    assert!(s.get(99).is_none());
}

#[test]
fn search_matches_title_or_description_in_insertion_order() {
    let mut s = Store::new();
    s.create("team lunch".to_string(), "d".to_string(), "t".to_string(), "food".to_string());
    s.create("dentist".to_string(), "d".to_string(), "t".to_string(), "lunch after".to_string());
    s.create("gym".to_string(), "d".to_string(), "t".to_string(), "weights".to_string());
    let hits = s.search("lunch");
    assert_eq!(hits.len(), 2);
    assert_eq!(hits[0].id, 1);
    assert_eq!(hits[1].id, 2);
}

#[test]
fn search_empty_query_returns_every_event() {
    let s = sample_store();
    let hits = s.search("");
    assert_eq!(hits.len(), 3);
    assert_eq!(hits[0].id, 1);
    assert_eq!(hits[1].id, 2);
    assert_eq!(hits[2].id, 3);
}

#[test]
fn search_is_case_sensitive() {
    let s = sample_store();
    assert_eq!(s.search("A").len(), 1);
    assert_eq!(s.search("a").len(), 0);
}

#[test]
fn upcoming_filters_and_sorts() {
    let s = sample_store();
    let up = s.upcoming("2025-02-01", "09:30");
    assert_eq!(up.len(), 1);
    assert_eq!(up[0].title, "A");
}

#[test]
fn upcoming_tie_is_stable() {
    let mut s = sample_store();
    s.create("D".to_string(), "2025-02-01".to_string(), "10:00".to_string(), "w".to_string());
    let up = s.upcoming("2025-02-01", "00:00");
    let titles: Vec<&str> = up.iter().map(|e| e.title.as_str()).collect();
    assert_eq!(titles, vec!["B", "A", "D"]);
}

#[test]
fn upcoming_includes_the_current_minute() {
    let s = sample_store();
    let up = s.upcoming("2025-02-01", "09:00");
    let titles: Vec<&str> = up.iter().map(|e| e.title.as_str()).collect();
    assert_eq!(titles, vec!["B", "A"]);
}

#[test]
fn render_prints_the_fixed_block() {
    let mut s = Store::new();
    s.create(
        "Dentist".to_string(),
        "2025-01-15".to_string(),
        "09:30".to_string(),
        "Checkup".to_string(),
    );
    let e = s.get(1).unwrap();
    let block = e.render();
    assert_eq!(
        block,
        "==========================\n\
         ID: 1\nTitle: Dentist\nDatetime: 2025-01-15 09:30\nDescription: Checkup\n\
         ==========================\n\n"
    );
}
