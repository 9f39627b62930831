use projecthub::project::{DroppedFingerprint, Project, WindowRef, DROPPED_FINGERPRINT_TTL};
use projecthub::pruner::{prune_tick, GRACE_PERIOD_TICKS};
use projecthub::window_manager::EnumeratedWindow;

fn live(hwnd: isize, title: &str, exe: &str) -> EnumeratedWindow {
    EnumeratedWindow {
        hwnd,
        title: title.to_string(),
        exe_path: exe.to_string(),
        class_name: "Cls".to_string(),
        pid: 1,
        minimized: false,
    }
}

fn project_with(windows: Vec<WindowRef>) -> Project {
    let mut p = Project::new("P".to_string(), "#000".to_string(), windows);
    p.updated_at = 0;
    p
}

#[test]
fn matched_window_is_rebound_and_reset() {
    let mut w = WindowRef::new("Doc".to_string(), "C:\\ed.exe".to_string(), None, 1);
    w.live = false;
    w.missed_ticks = 2;
    let mut ps = vec![project_with(vec![w])];
    let (out, dirty) = prune_tick(&mut ps, &[live(9, "Doc", "C:\\ed.exe")], 100);
    let w = &ps[0].windows[0];
    assert!(w.live);
    assert_eq!(w.missed_ticks, 0);
    assert_eq!(w.last_seen_hwnd, Some(9));
    assert!(out.any_live_state_changed);
    assert!(!dirty);
    assert_eq!(ps[0].updated_at, 0);
}

#[test]
fn missing_window_removed_after_grace_and_reattached_on_reopen() {
    let w = WindowRef::new("Chat".to_string(), "C:\\tg.exe".to_string(), Some("Cls".to_string()), 1);
    let mut ps = vec![project_with(vec![w])];
    let pid = ps[0].id;
    // Ticks 1 and 2: missing but within the grace period.
    for t in 1..GRACE_PERIOD_TICKS {
        let (out, dirty) = prune_tick(&mut ps, &[], 100);
        assert_eq!(ps[0].windows.len(), 1);
        assert_eq!(ps[0].windows[0].missed_ticks, t);
        assert!(!ps[0].windows[0].live);
        assert_eq!(ps[0].windows[0].last_seen_hwnd, None);
        assert!(!dirty);
        assert_eq!(out.any_live_state_changed, t == 1);
    }
    // Tick 3: removed, fingerprint kept.
    let (out, dirty) = prune_tick(&mut ps, &[], 200);
    assert!(dirty);
    assert!(ps[0].windows.is_empty());
    assert_eq!(out.removed, vec![(pid, "P".to_string(), "Chat".to_string(), 3u8)]);
    assert_eq!(ps[0].dropped_fingerprints.len(), 1);
    assert_eq!(ps[0].dropped_fingerprints[0].dropped_at, 200);
    assert_eq!(ps[0].updated_at, 200);
    // The window reopens under a new handle and a new title.
    let (out, dirty) = prune_tick(&mut ps, &[live(77, "chat — Telegram", "c:\\TG.exe")], 300);
    assert!(dirty);
    assert_eq!(out.rebound, vec![(pid, "P".to_string(), "chat — Telegram".to_string())]);
    assert!(ps[0].dropped_fingerprints.is_empty());
    let w = &ps[0].windows[0];
    assert_eq!(w.last_seen_hwnd, Some(77));
    assert_eq!(w.title_pattern, "Chat");
    assert_eq!(w.title_snapshot, "chat — Telegram");
    assert_eq!(w.class_name.as_deref(), Some("Cls"));
    assert!(w.live);
}

#[test]
fn stale_fingerprints_are_forgotten() {
    let mut p = project_with(Vec::new());
    p.dropped_fingerprints.push(DroppedFingerprint {
        title_snapshot: "Old".to_string(),
        title_pattern: "Old".to_string(),
        exe_path: "C:\\x.exe".to_string(),
        class_name: None,
        dropped_at: 0,
    });
    let mut ps = vec![p];
    let (_, dirty) = prune_tick(&mut ps, &[], DROPPED_FINGERPRINT_TTL - 1);
    assert_eq!(ps[0].dropped_fingerprints.len(), 1);
    assert!(!dirty);
    let (_, dirty) = prune_tick(&mut ps, &[], DROPPED_FINGERPRINT_TTL);
    assert!(ps[0].dropped_fingerprints.is_empty());
    assert_eq!(ps[0].updated_at, DROPPED_FINGERPRINT_TTL);
    assert!(dirty);
}

#[test]
fn a_live_window_is_never_attached_twice() {
    let fp = |p: &str| DroppedFingerprint {
        title_snapshot: p.to_string(),
        title_pattern: p.to_string(),
        exe_path: "C:\\ed.exe".to_string(),
        class_name: None,
        dropped_at: 0,
    };
    let mut a = project_with(Vec::new());
    a.dropped_fingerprints.push(fp("doc"));
    let mut b = project_with(Vec::new());
    b.dropped_fingerprints.push(fp("doc"));
    // A window already bound elsewhere is not free either.
    let bound = WindowRef::new("Bound doc".to_string(), "C:\\ed.exe".to_string(), None, 5);
    let c = project_with(vec![bound]);
    let mut ps = vec![a, b, c];
    let lv = [live(5, "Bound doc", "C:\\ed.exe"), live(6, "Doc two", "C:\\ed.exe")];
    let (out, _) = prune_tick(&mut ps, &lv, 10);
    assert_eq!(out.rebound.len(), 1);
    assert_eq!(ps[0].windows[0].last_seen_hwnd, Some(6));
    assert!(ps[1].windows.is_empty());
    assert_eq!(ps[1].dropped_fingerprints.len(), 1);
    assert_eq!(ps[2].windows[0].last_seen_hwnd, Some(5));
}
