use projecthub::commands::set_dock_toggle_checked;
use projecthub::preferences::{PreferencesFile, PreferencesView, DEFAULT_DOCK_TOGGLE_COMBO};

#[test]
fn default_combo_when_unset() {
    let p = PreferencesFile::default();
    assert_eq!(p.version, 1);
    assert_eq!(p.dock_toggle_combo(), "Ctrl+Alt+Space");
    assert_eq!(DEFAULT_DOCK_TOGGLE_COMBO, "Ctrl+Alt+Space");
    let v = PreferencesView::from_file(p);
    assert_eq!(v.dock_toggle_hotkey, "Ctrl+Alt+Space");
    assert!(!v.dock_toggle_is_custom);
}

#[test]
fn set_then_read_back_trimmed() {
    let mut p = PreferencesFile::default();
    p.set_dock_toggle_hotkey(Some("  Ctrl+Shift+KeyM ".to_string()));
    assert_eq!(p.dock_toggle_hotkey.as_deref(), Some("Ctrl+Shift+KeyM"));
    assert_eq!(p.dock_toggle_combo(), "Ctrl+Shift+KeyM");
    let v = PreferencesView::from_file(p.clone());
    assert!(v.dock_toggle_is_custom);
    p.set_dock_toggle_hotkey(Some("   ".to_string()));
    assert_eq!(p.dock_toggle_hotkey, None);
    assert_eq!(p.dock_toggle_combo(), "Ctrl+Alt+Space");
    p.set_dock_toggle_hotkey(Some("Meta+F2".to_string()));
    p.set_dock_toggle_hotkey(None);
    assert_eq!(p.dock_toggle_combo(), "Ctrl+Alt+Space");
}

#[test]
fn checked_set_refuses_invalid_combo() {
    let mut p = PreferencesFile::default();
    assert!(set_dock_toggle_checked(&mut p, Some("Ctrl+Alt+KeyZ".to_string())).is_ok());
    assert_eq!(p.dock_toggle_combo(), "Ctrl+Alt+KeyZ");
    let err = set_dock_toggle_checked(&mut p, Some("Ctrl+Banana".to_string())).unwrap_err();
    assert!(err.starts_with("Invalid hotkey combo: "), "{err}");
    assert_eq!(p.dock_toggle_combo(), "Ctrl+Alt+KeyZ");
    assert_eq!(
        set_dock_toggle_checked(&mut p, Some("  ".to_string())).unwrap_err(),
        "Hotkey combo is empty"
    );
    assert!(set_dock_toggle_checked(&mut p, None).is_ok());
    assert_eq!(p.dock_toggle_combo(), "Ctrl+Alt+Space");
}
