use projecthub::commands::{
    add_windows_in, create_project_in, name_or_unknown, new_project, plan_activation,
    project_views, remove_window_in, update_project_in, ActivationResult, ActiveProject,
    CreateProjectInput, ProjectView, UpdateProjectInput,
};
use projecthub::project::{DroppedFingerprint, WindowRef};
use projecthub::store::ProjectStoreFile;
use projecthub::window_manager::EnumeratedWindow;

fn live(hwnd: isize, title: &str, exe: &str, class: &str, minimized: bool) -> EnumeratedWindow {
    EnumeratedWindow {
        hwnd,
        title: title.to_string(),
        exe_path: exe.to_string(),
        class_name: class.to_string(),
        pid: 1,
        minimized,
    }
}

fn desk() -> Vec<EnumeratedWindow> {
    vec![
        live(1, "Inbox - Chrome", "C:\\chrome.exe", "Chrome_WidgetWin_1", false),
        live(2, " Telegram ", "C:\\tg.exe", "", false),
        live(3, "main.rs - IDE", "C:\\ide.exe", "IdeFrame", false),
        live(4, "Music", "C:\\music.exe", "M", true),
    ]
}

fn create(store: &mut ProjectStoreFile, name: &str, hwnds: Vec<isize>) -> usize {
    let input = CreateProjectInput { name: name.to_string(), window_hwnds: hwnds, color: None };
    create_project_in(store, input, &desk())
}

#[test]
fn create_picks_windows_in_enumeration_order_and_assigns_slots() {
    let mut store = ProjectStoreFile::default();
    let i = create(&mut store, "  Devin Task ", vec![3, 2, 99]);
    let p = &store.projects[i];
    assert_eq!(p.name, "Devin Task");
    assert_eq!(p.initials, "DT");
    assert_eq!(p.color, "#6366f1");
    assert_eq!(p.hotkey_index, Some(1));
    let titles: Vec<&str> = p.windows.iter().map(|w| w.title_snapshot.as_str()).collect();
    assert_eq!(titles, vec!["Telegram", "main.rs - IDE"]);
    assert_eq!(p.windows[0].class_name, None);
    assert_eq!(p.windows[1].class_name.as_deref(), Some("IdeFrame"));
    for k in 1..9 {
        create(&mut store, "x", vec![]);
        assert_eq!(store.projects[k].hotkey_index, Some(k as u8 + 1));
    }
    let last = create(&mut store, "tenth", vec![]);
    assert_eq!(store.projects[last].hotkey_index, None);
    assert_eq!(store.projects[last].color, "#22c55e");
    let explicit = new_project(
        CreateProjectInput { name: "c".to_string(), window_hwnds: vec![], color: Some("#123456".to_string()) },
        &[],
        3,
    );
    assert_eq!(explicit.color, "#123456");
    assert_eq!(explicit.hotkey_index, Some(4));
}

#[test]
fn update_applies_each_field() {
    let mut store = ProjectStoreFile::default();
    let i = create(&mut store, "A", vec![1]);
    let id = store.projects[i].id;
    let input = UpdateProjectInput {
        id,
        name: Some("  Renamed ".to_string()),
        color: Some("#abcdef".to_string()),
        initials: Some("  xyz ".to_string()),
        hotkey_index: Some(None),
        hotkey_combo: Some(Some(" Ctrl+F5 ".to_string())),
        window_hwnds: Some(vec![3, 42, 1]),
    };
    let pos = update_project_in(&mut store, input, &desk(), 555).unwrap();
    let p = &store.projects[pos];
    assert_eq!(p.name, "Renamed");
    assert_eq!(p.color, "#abcdef");
    assert_eq!(p.initials, "XY");
    assert_eq!(p.hotkey_index, None);
    assert_eq!(p.hotkey_combo.as_deref(), Some("Ctrl+F5"));
    let hwnds: Vec<Option<isize>> = p.windows.iter().map(|w| w.last_seen_hwnd).collect();
    assert_eq!(hwnds, vec![Some(3), Some(1)]);
    assert_eq!(p.updated_at, 555);
    // Blank initials keep the old ones; `Some(None)` clears the combo.
    let input = UpdateProjectInput {
        id,
        name: None,
        color: None,
        initials: Some("  ".to_string()),
        hotkey_index: None,
        hotkey_combo: Some(None),
        window_hwnds: None,
    };
    update_project_in(&mut store, input, &[], 556).unwrap();
    assert_eq!(store.projects[0].initials, "XY");
    assert_eq!(store.projects[0].hotkey_combo, None);
    assert_eq!(store.projects[0].windows.len(), 2);
    // Initials that grow when upper-cased are cut back to two characters.
    let input = UpdateProjectInput {
        id,
        name: None,
        color: None,
        initials: Some("ßß".to_string()),
        hotkey_index: None,
        hotkey_combo: None,
        window_hwnds: None,
    };
    update_project_in(&mut store, input, &[], 557).unwrap();
    assert_eq!(store.projects[0].initials, "SS");
}

#[test]
fn update_refusals_leave_store_unchanged() {
    let mut store = ProjectStoreFile::default();
    let i = create(&mut store, "A", vec![]);
    let id = store.projects[i].id;
    let bad = UpdateProjectInput {
        id,
        name: Some("B".to_string()),
        color: None,
        initials: None,
        hotkey_index: None,
        hotkey_combo: Some(Some("Ctrl+Banana".to_string())),
        window_hwnds: None,
    };
    let err = update_project_in(&mut store, bad, &[], 1).unwrap_err();
    assert!(err.starts_with("Invalid hotkey combo: "), "{err}");
    assert_eq!(store.projects[0].name, "A");
    let missing = UpdateProjectInput {
        id: id.wrapping_add(1),
        name: Some("B".to_string()),
        color: None,
        initials: None,
        hotkey_index: None,
        hotkey_combo: None,
        window_hwnds: None,
    };
    assert_eq!(update_project_in(&mut store, missing, &[], 1).unwrap_err(), "project not found");
}

#[test]
fn add_windows_skips_duplicates_and_dead_handles() {
    let mut store = ProjectStoreFile::default();
    let i = create(&mut store, "A", vec![1]);
    let id = store.projects[i].id;
    let before = store.projects[i].updated_at;
    let (pos, added) = add_windows_in(&mut store, id, &vec![1, 3, 3, 77, 2], &desk(), 999).unwrap();
    assert_eq!(added, 2);
    let hwnds: Vec<Option<isize>> = store.projects[pos].windows.iter().map(|w| w.last_seen_hwnd).collect();
    assert_eq!(hwnds, vec![Some(1), Some(3), Some(2)]);
    assert_eq!(store.projects[pos].updated_at, 999);
    let (_, added) = add_windows_in(&mut store, id, &vec![1, 2], &desk(), 1000).unwrap();
    assert_eq!(added, 0);
    assert_eq!(store.projects[pos].updated_at, 999);
    assert_ne!(before, 999);
    assert_eq!(add_windows_in(&mut store, 0, &vec![1], &desk(), 1).unwrap_err(), "project not found");
}

#[test]
fn remove_window_forgets_its_fingerprints() {
    let mut store = ProjectStoreFile::default();
    let i = create(&mut store, "A", vec![1, 3]);
    let id = store.projects[i].id;
    let wid = store.projects[i].windows[0].id;
    store.projects[i].dropped_fingerprints.push(DroppedFingerprint {
        title_snapshot: "x".to_string(),
        title_pattern: "Inbox - Chrome".to_string(),
        exe_path: "c:\\CHROME.exe".to_string(),
        class_name: None,
        dropped_at: 0,
    });
    store.projects[i].dropped_fingerprints.push(DroppedFingerprint {
        title_snapshot: "y".to_string(),
        title_pattern: "Other".to_string(),
        exe_path: "C:\\chrome.exe".to_string(),
        class_name: None,
        dropped_at: 0,
    });
    assert_eq!(remove_window_in(&mut store, id, 12345, 5).unwrap(), (i, false));
    assert_eq!(store.projects[i].windows.len(), 2);
    assert_eq!(remove_window_in(&mut store, id, wid, 6).unwrap(), (i, true));
    let p = &store.projects[i];
    assert_eq!(p.windows.len(), 1);
    assert_eq!(p.windows[0].last_seen_hwnd, Some(3));
    assert_eq!(p.dropped_fingerprints.len(), 1);
    assert_eq!(p.dropped_fingerprints[0].title_pattern, "Other");
    assert_eq!(p.updated_at, 6);
    assert_eq!(remove_window_in(&mut store, 1, wid, 6).unwrap_err(), "project not found");
}

#[test]
fn activation_plan_is_a_hard_switch() {
    let mut store = ProjectStoreFile::default();
    let i = create(&mut store, "Work", vec![2, 3]);
    let id = store.projects[i].id;
    // The Telegram window is gone now; a new window appeared.
    let mut now_live = desk();
    now_live.remove(1);
    now_live.push(live(5, "Dock", "C:\\projecthub.exe", "D", false));
    now_live.push(live(6, "Notes", "C:\\notes.exe", "N", false));
    let plan = plan_activation(&mut store, id, &now_live, Some(5), 4242).unwrap();
    assert_eq!(plan.project_index, i);
    assert_eq!(plan.to_minimize, vec![1, 6]);
    assert_eq!(plan.primary.as_ref().map(|p| p.0), Some(3));
    assert_eq!(plan.primary.as_ref().map(|p| p.1.as_str()), Some("main.rs - IDE"));
    assert!(plan.to_raise.is_empty());
    assert_eq!(plan.missing, vec!["Telegram".to_string()]);
    assert_eq!(plan.windows_focused, 1);
    assert_eq!(plan.windows_minimized, 2);
    let p = &store.projects[i];
    assert_eq!(p.last_activated_at, Some(4242));
    assert_eq!(p.updated_at, 4242);
    assert_eq!(p.windows[0].last_seen_hwnd, None);
    assert_eq!(p.windows[1].last_seen_hwnd, Some(3));
    let result = ActivationResult::of_plan(plan, &store.projects[i]);
    assert_eq!(result.project.name, "Work");
    assert_eq!(result.windows_missing, vec!["Telegram".to_string()]);
    assert!(plan_activation(&mut store, 0, &now_live, None, 1).is_err());
}

#[test]
fn activation_raises_all_but_the_primary() {
    let mut store = ProjectStoreFile::default();
    let i = create(&mut store, "Work", vec![1, 2, 3]);
    let id = store.projects[i].id;
    let plan = plan_activation(&mut store, id, &desk(), None, 1).unwrap();
    assert_eq!(plan.primary.as_ref().map(|p| p.0), Some(1));
    assert_eq!(plan.to_raise, vec![2, 3]);
    assert_eq!(plan.windows_focused, 3);
    assert_eq!(plan.to_minimize, Vec::<isize>::new());
}

#[test]
fn views_and_names() {
    let mut store = ProjectStoreFile::default();
    let i = create(&mut store, "Alpha", vec![1]);
    let id = store.projects[i].id;
    let views = project_views(&store.projects);
    assert_eq!(views.len(), 1);
    let v: &ProjectView = &views[0];
    assert_eq!(v.name, "Alpha");
    assert_eq!(v.windows[0].title_snapshot, "Inbox - Chrome");
    assert!(v.windows[0].live);
    assert_eq!(ProjectView::from_project(store.projects[0].clone()).id, id);
    assert_eq!(name_or_unknown(&store, id), "Alpha");
    assert_eq!(name_or_unknown(&store, id.wrapping_add(1)), "<unknown>");
}

#[test]
fn active_project_switches_and_forgets() {
    let mut a = ActiveProject::default();
    assert_eq!(a.switch_to(1, 100), (None, None));
    assert_eq!(a.switch_to(2, 350), (Some(1), Some(250)));
    assert_eq!(a.switch_to(3, 300), (Some(2), Some(0)));
    a.forget(2);
    assert_eq!(a.id, Some(3));
    a.forget(3);
    assert_eq!(a.id, None);
    assert_eq!(a.since, None);
}

#[test]
fn window_ref_helper_used() {
    let w = WindowRef::new("a".to_string(), "b".to_string(), None, 1);
    assert_eq!(w.title_pattern, "a");
}
