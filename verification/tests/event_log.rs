use projecthub::event_log::{
    log_lines, newest_first, path_with_suffix, rotation_target, split_lines, Event, EventKind,
    MAX_BYTES,
};

#[test]
fn lines_like_std() {
    for raw in ["", "a", "a\n", "a\n\n", "\n", "a\r\nb", "a\rb\n", "x\r", "l1\nl2\r\n\r\nl3"] {
        let want: Vec<String> = raw.lines().map(|l| l.to_string()).collect();
        assert_eq!(split_lines(raw), want, "{raw:?}");
    }
}

#[test]
fn blank_lines_are_skipped() {
    let raw = "{\"a\":1}\n\n   \n{\"b\":2}\r\n\t\n";
    assert_eq!(log_lines(raw), vec!["{\"a\":1}".to_string(), "{\"b\":2}".to_string()]);
}

fn ev(name: &str) -> Event {
    Event::new(EventKind::ProjectCreated { name: name.to_string() }, None)
}

fn name_of(e: &Event) -> String {
    match &e.kind {
        EventKind::ProjectCreated { name } => name.clone(),
        _ => String::new(),
    }
}

#[test]
fn newest_first_skips_unparsed_and_limits() {
    let parsed = vec![Some(ev("1")), None, Some(ev("2")), Some(ev("3"))];
    let r = newest_first(parsed, 2);
    assert_eq!(r.iter().map(name_of).collect::<Vec<_>>(), vec!["3", "2"]);
    let parsed = vec![Some(ev("1")), None, Some(ev("2"))];
    let r = newest_first(parsed, 10);
    assert_eq!(r.iter().map(name_of).collect::<Vec<_>>(), vec!["2", "1"]);
    assert!(newest_first(vec![Some(ev("1"))], 0).is_empty());
}

#[test]
fn rotation_at_ten_mebibytes() {
    assert_eq!(MAX_BYTES, 10 * 1024 * 1024);
    assert_eq!(rotation_target("events.jsonl", MAX_BYTES - 1, 0), None);
    // 2026-05-10T18:41:00Z
    let t = 1_778_438_460_000_000i64;
    assert_eq!(
        rotation_target("/x/events.jsonl", MAX_BYTES, t).unwrap(),
        "/x/events.jsonl.20260510T184100Z"
    );
    assert_eq!(path_with_suffix("a", "b"), "a.b");
}

#[test]
fn new_events_get_distinct_ids() {
    let a = Event::new(EventKind::AppStarted, Some(3));
    let b = Event::new(EventKind::AppStarted, None);
    assert_ne!(a.id, b.id);
    assert_eq!(a.project_id, Some(3));
    assert!(b.timestamp >= a.timestamp);
    assert!(a.timestamp > 1_600_000_000_000_000);
    for id in [a.id, b.id] {
        assert_eq!(id & 0xF000_C000_0000_0000_0000u128, 0x4000_8000_0000_0000_0000u128);
    }
}
