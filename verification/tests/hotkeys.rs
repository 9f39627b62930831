use projecthub::hotkeys::{
    effective_combo, format_shortcut, hotkey_bindings, validate_combo, RegistrationStep,
    RouterAction, ShortcutParts, ShortcutRouter,
};
use projecthub::project::Project;

fn parts(ctrl: bool, alt: bool, shift: bool, win: bool, key: &str) -> ShortcutParts {
    ShortcutParts { ctrl, alt, shift, win, key: key.to_string() }
}

#[test]
fn canonical_text_of_a_shortcut() {
    assert_eq!(format_shortcut(&parts(true, true, false, false, "Digit5")), "Ctrl+Alt+Digit5");
    assert_eq!(format_shortcut(&parts(false, false, false, false, "F2")), "F2");
    assert_eq!(format_shortcut(&parts(true, true, true, true, "Space")), "Ctrl+Alt+Shift+Win+Space");
}

#[test]
fn validate_trims_and_parses() {
    assert_eq!(validate_combo("  Ctrl+Alt+Space ").unwrap(), "Ctrl+Alt+Space");
    assert_eq!(validate_combo("Ctrl+Shift+KeyM").unwrap(), "Ctrl+Shift+KeyM");
    assert_eq!(validate_combo("").unwrap_err(), "Hotkey combo is empty");
    assert_eq!(validate_combo(" \t").unwrap_err(), "Hotkey combo is empty");
    let err = validate_combo("Ctrl+NotAKey").unwrap_err();
    assert!(err.starts_with("Invalid hotkey combo: "), "{err}");
    assert!(validate_combo("KeyQ+Shift").is_err());
}

#[test]
fn project_combo_prefers_custom_then_slot() {
    let mut p = Project::new("P".to_string(), "#000".to_string(), Vec::new());
    assert_eq!(effective_combo(&p), None);
    p.hotkey_index = Some(5);
    assert_eq!(effective_combo(&p).as_deref(), Some("Ctrl+Alt+Digit5"));
    p.hotkey_index = Some(10);
    assert_eq!(effective_combo(&p), None);
    p.hotkey_index = Some(0);
    assert_eq!(effective_combo(&p), None);
    p.hotkey_combo = Some("   ".to_string());
    p.hotkey_index = Some(1);
    assert_eq!(effective_combo(&p).as_deref(), Some("Ctrl+Alt+Digit1"));
    p.hotkey_combo = Some(" Ctrl+F1 ".to_string());
    assert_eq!(effective_combo(&p).as_deref(), Some(" Ctrl+F1 "));
}

#[test]
fn router_keeps_first_binding() {
    let mut r = ShortcutRouter::new();
    assert!(r.bind("Ctrl+Alt+Space".to_string(), RouterAction::ToggleDock));
    assert!(!r.bind("Ctrl+Alt+Space".to_string(), RouterAction::ActivateProject(7)));
    assert!(r.bind("Ctrl+Alt+Digit1".to_string(), RouterAction::ActivateProject(7)));
    assert_eq!(r.action_for("Ctrl+Alt+Space"), Some(RouterAction::ToggleDock));
    assert_eq!(r.action_for("Ctrl+Alt+Digit1"), Some(RouterAction::ActivateProject(7)));
    assert_eq!(r.action_for("Ctrl+Alt+Digit2"), None);
    assert_eq!(r.by_combo.len(), 2);
}

#[test]
fn registration_plan() {
    let mut r = ShortcutRouter::new();
    match r.plan_registration("Ctrl+Alt+Space") {
        RegistrationStep::Register(k) => {
            assert_eq!(k, "Ctrl+Alt+Space");
            r.bind(k, RouterAction::ToggleDock);
        }
        other => panic!("unexpected {other:?}"),
    }
    match r.plan_registration("control+ALT+space") {
        RegistrationStep::Duplicate(k) => assert_eq!(k, "Ctrl+Alt+Space"),
        other => panic!("unexpected {other:?}"),
    }
    match r.plan_registration("Ctrl+Nope") {
        RegistrationStep::Invalid(m) => assert!(!m.is_empty()),
        other => panic!("unexpected {other:?}"),
    }
}

#[test]
fn bindings_dock_first_then_projects_with_combos() {
    let mut a = Project::new("A".to_string(), "#000".to_string(), Vec::new());
    a.hotkey_index = Some(1);
    let b = Project::new("B".to_string(), "#000".to_string(), Vec::new());
    let mut c = Project::new("C".to_string(), "#000".to_string(), Vec::new());
    c.hotkey_combo = Some("Ctrl+F3".to_string());
    let (ida, idc) = (a.id, c.id);
    let bs = hotkey_bindings("Ctrl+Alt+Space".to_string(), &vec![a, b, c]);
    assert_eq!(
        bs,
        vec![
            ("Ctrl+Alt+Space".to_string(), RouterAction::ToggleDock),
            ("Ctrl+Alt+Digit1".to_string(), RouterAction::ActivateProject(ida)),
            ("Ctrl+F3".to_string(), RouterAction::ActivateProject(idc)),
        ]
    );
}
