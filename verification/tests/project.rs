use projecthub::project::{derive_initials, palette_colors, palette_for_index, Project, WindowRef};

#[test]
fn initials_two_words() {
    assert_eq!(derive_initials("Devin Task"), "DT");
}

#[test]
fn initials_one_word() {
    assert_eq!(derive_initials("Личное"), "Л");
}

#[test]
fn initials_empty() {
    assert_eq!(derive_initials(""), "·");
}

#[test]
fn initials_take_first_two_words_only() {
    assert_eq!(derive_initials("  alpha   beta gamma "), "AB");
}

#[test]
fn initials_of_whitespace_only_name() {
    assert_eq!(derive_initials(" \t\u{3000} "), "·");
}

#[test]
fn initials_are_upper_cased() {
    assert_eq!(derive_initials("straße"), "S");
    assert_eq!(derive_initials("ßeta x"), "SS");
    assert!(derive_initials("ßeta ßx").chars().count() <= 2);
}

#[test]
fn palette_is_round_robin() {
    let colors = palette_colors();
    assert_eq!(colors.len(), 8);
    assert_eq!(palette_for_index(0), "#6366f1");
    assert_eq!(palette_for_index(7), "#ec4899");
    for i in 0..20usize {
        assert_eq!(palette_for_index(i), palette_for_index(i + 8));
        assert_eq!(palette_for_index(i), colors[i % 8]);
    }
}

#[test]
fn window_ref_new_trims_title() {
    let w = WindowRef::new("  My Doc - Editor \n".to_string(), "C:\\app.exe".to_string(), None, 42);
    assert_eq!(w.title_snapshot, "My Doc - Editor");
    assert_eq!(w.title_pattern, "My Doc - Editor");
    assert_eq!(w.last_seen_hwnd, Some(42));
    assert!(w.live);
    assert_eq!(w.missed_ticks, 0);
    assert_eq!(w.chrome_profile, None);
}

#[test]
fn project_new_derives_initials_and_times() {
    let p = Project::new("Devin Task".to_string(), "#fff".to_string(), Vec::new());
    assert_eq!(p.initials, "DT");
    assert_eq!(p.created_at, p.updated_at);
    assert_eq!(p.hotkey_index, None);
    assert_eq!(p.last_activated_at, None);
    let q = Project::new("Devin Task".to_string(), "#fff".to_string(), Vec::new());
    assert_ne!(p.id, q.id);
}

#[test]
fn fresh_ids_are_version_four_uuids() {
    let w = WindowRef::new("T".to_string(), "C:\\a.exe".to_string(), None, 1);
    let p = Project::new("P".to_string(), "#000".to_string(), Vec::new());
    for id in [w.id, p.id] {
        assert_eq!(id & 0xF000_C000_0000_0000_0000u128, 0x4000_8000_0000_0000_0000u128);
    }
    assert_ne!(w.id, p.id);
}
