use projecthub::project::WindowRef;
use projecthub::window_manager::{
    can_attach, enumerate_windows, focus_step, focus_window, listed_windows, lists_window,
    match_window, path_eq_ignore_case, path_file_name, EnumeratedWindow, FocusAction, FocusEvent,
    RawWindow, TOOL_WINDOW_STYLE,
};

fn live(hwnd: isize, title: &str, exe: &str, class: &str) -> EnumeratedWindow {
    EnumeratedWindow {
        hwnd,
        title: title.to_string(),
        exe_path: exe.to_string(),
        class_name: class.to_string(),
        pid: 1,
        minimized: false,
    }
}

fn stored(title: &str, pattern: &str, exe: &str, class: Option<&str>) -> WindowRef {
    let mut w = WindowRef::new(title.to_string(), exe.to_string(), class.map(|c| c.to_string()), 0);
    w.title_pattern = pattern.to_string();
    w
}

#[test]
fn exact_title_wins_over_pattern() {
    let cands = vec![
        live(1, "Inbox - Chrome", "C:\\chrome.exe", "Chrome_WidgetWin_1"),
        live(2, "Project X - Chrome", "C:\\CHROME.EXE", "Chrome_WidgetWin_1"),
    ];
    let w = stored("Project X - Chrome", "chrome", "c:\\chrome.exe", None);
    assert_eq!(match_window(&w, &cands).unwrap().hwnd, 2);
}

#[test]
fn pattern_is_case_insensitive_substring() {
    let cands = vec![
        live(1, "Other", "C:\\ide.exe", "X"),
        live(2, "main.rs — PROJECTHUB", "C:\\ide.exe", "X"),
    ];
    let w = stored("old title", "  projecthub ", "C:\\ide.exe", None);
    assert_eq!(match_window(&w, &cands).unwrap().hwnd, 2);
}

#[test]
fn class_name_is_last_resort_within_exe() {
    let cands = vec![
        live(1, "A", "C:\\other.exe", "TgWindow"),
        live(2, "B", "C:\\tg.exe", "TgWindow"),
    ];
    let w = stored("gone", "zzz", "C:\\tg.exe", Some("TgWindow"));
    assert_eq!(match_window(&w, &cands).unwrap().hwnd, 2);
    let w = stored("gone", "zzz", "C:\\tg.exe", Some(""));
    assert!(match_window(&w, &cands).is_none());
    let w = stored("gone", "   ", "C:\\tg.exe", None);
    assert!(match_window(&w, &cands).is_none());
}

#[test]
fn other_executables_never_match() {
    let cands = vec![live(1, "Same", "C:\\a.exe", "K")];
    let w = stored("Same", "Same", "C:\\b.exe", Some("K"));
    assert!(match_window(&w, &cands).is_none());
    assert!(path_eq_ignore_case("C:\\A.exe", "c:\\a.EXE"));
}

#[test]
fn portable_build_reaches_no_window_system() {
    assert!(enumerate_windows(Some(1)).is_empty());
    assert_eq!(focus_window(5), (false, false));
}

#[test]
fn file_name_is_the_last_path_component() {
    assert_eq!(path_file_name("C:\\Program Files\\ProjectHub\\projecthub.exe"), "projecthub.exe");
    assert_eq!(path_file_name("C:/tools/app.exe"), "app.exe");
    assert_eq!(path_file_name("app.exe"), "app.exe");
    assert_eq!(path_file_name("C:\\dir\\"), "dir");
    assert_eq!(path_file_name("C:\\x\\projecthub.exe\\"), "projecthub.exe");
    assert_eq!(path_file_name("C:\\x\\app.exe\\.\\"), "app.exe");
    assert_eq!(path_file_name("C:\\x\\.."), "");
    assert_eq!(path_file_name("C:\\x\\..\\"), "");
    assert_eq!(path_file_name("C:"), "");
    assert_eq!(path_file_name("C:\\"), "");
    assert_eq!(path_file_name("C:app.exe"), "app.exe");
    assert_eq!(path_file_name("."), "");
    assert_eq!(path_file_name(""), "");
}

#[test]
fn lists_only_visible_titled_foreign_windows() {
    let exe = "C:\\apps\\editor.exe";
    assert!(lists_window(true, 0, "Doc", 5, Some(1), exe));
    assert!(lists_window(true, 0x100, "Doc", 5, None, exe));
    assert!(!lists_window(false, 0, "Doc", 5, Some(1), exe));
    assert!(!lists_window(true, TOOL_WINDOW_STYLE, "Doc", 5, Some(1), exe));
    assert!(!lists_window(true, 0x80 | 0x8, "Doc", 5, Some(1), exe));
    assert!(!lists_window(true, 0, "", 5, Some(1), exe));
    assert!(!lists_window(true, 0, "Doc", 1, Some(1), exe));
    assert!(!lists_window(true, 0, "Dock", 5, Some(1), "D:\\x\\ProjectHub.EXE"));
    assert!(!lists_window(true, 0, "Dock", 5, Some(1), "C:\\x\\projecthub.exe\\"));
    assert!(lists_window(true, 0, "Dock", 5, Some(1), "D:\\x\\projecthub.exe.bak"));
}

fn raw(hwnd: isize, visible: bool, title: &str, pid: u32, exe: &str) -> RawWindow {
    RawWindow {
        hwnd,
        visible,
        ex_style: 0,
        title: title.to_string(),
        pid,
        class_name: "Cls".to_string(),
        exe_path: exe.to_string(),
        minimized: hwnd == 4,
    }
}

#[test]
fn listed_windows_keep_order_and_fields() {
    let rs = vec![
        raw(1, true, "A", 10, "C:\\a.exe"),
        raw(2, false, "B", 10, "C:\\a.exe"),
        raw(3, true, "C", 99, "C:\\a.exe"),
        raw(4, true, "D", 11, "C:\\b.exe"),
        raw(5, true, "E", 12, "C:\\x\\projecthub.exe"),
    ];
    let out = listed_windows(rs, Some(99));
    let hwnds: Vec<isize> = out.iter().map(|w| w.hwnd).collect();
    assert_eq!(hwnds, vec![1, 4]);
    assert_eq!(out[1].title, "D");
    assert_eq!(out[1].exe_path, "C:\\b.exe");
    assert_eq!(out[1].class_name, "Cls");
    assert_eq!(out[1].pid, 11);
    assert!(out[1].minimized);
}

/// Runs the focus steps with the given observations; answers the outcome
/// and the actions taken.
fn run_focus(valid: bool, first_ok: bool, retry: bool, second_ok: bool) -> ((bool, bool), Vec<FocusAction>) {
    let mut actions = Vec::new();
    let mut ev = FocusEvent::Target { valid, minimized: true };
    loop {
        let a = focus_step(ev);
        actions.push(a);
        ev = match a {
            FocusAction::Finish(s, f) => return ((s, f), actions),
            FocusAction::ShowAndRequest { .. } => FocusEvent::FirstRequest { ok: first_ok, can_retry: retry },
            FocusAction::AttachAndRequest => FocusEvent::AttachedRequest { ok: second_ok },
            FocusAction::SwitchToThis => FocusEvent::Switched,
        };
    }
}

#[test]
fn focus_steps_follow_the_fallbacks() {
    assert_eq!(run_focus(false, true, true, true).0, (false, false));
    let (r, acts) = run_focus(true, true, true, true);
    assert_eq!(r, (true, false));
    assert_eq!(acts[0], FocusAction::ShowAndRequest { restore: true });
    assert_eq!(run_focus(true, false, true, true).0, (true, true));
    let (r, acts) = run_focus(true, false, true, false);
    assert_eq!(r, (false, true));
    assert_eq!(acts, vec![
        FocusAction::ShowAndRequest { restore: true },
        FocusAction::AttachAndRequest,
        FocusAction::SwitchToThis,
        FocusAction::Finish(false, true),
    ]);
    let (r, acts) = run_focus(true, false, false, true);
    assert_eq!(r, (false, true));
    assert_eq!(acts.len(), 3);
    assert_eq!(
        focus_step(FocusEvent::Target { valid: true, minimized: false }),
        FocusAction::ShowAndRequest { restore: false }
    );
}

#[test]
fn attaching_needs_another_foreground_window_with_known_threads() {
    assert!(can_attach(true, 7, 8, 1, 2));
    assert!(!can_attach(false, 7, 8, 1, 2));
    assert!(!can_attach(true, 8, 8, 1, 2));
    assert!(!can_attach(true, 7, 8, 0, 2));
    assert!(!can_attach(true, 7, 8, 1, 0));
}

#[test]
fn other_executables_do_not_change_the_match() {
    let w = stored("Doc", "doc", "C:\\ed.exe", Some("Cls"));
    let a = vec![live(1, "x", "C:\\ed.exe", "Other"), live(2, "my doc", "C:\\ED.exe", "Cls")];
    let b = vec![
        live(9, "Doc", "C:\\other.exe", "Cls"),
        live(1, "x", "C:\\ed.exe", "Other"),
        live(8, "doc", "C:\\other.exe", "Cls"),
        live(2, "my doc", "C:\\ED.exe", "Cls"),
    ];
    assert_eq!(match_window(&w, &a).unwrap().hwnd, 2);
    assert_eq!(match_window(&w, &b).unwrap().hwnd, 2);
}
