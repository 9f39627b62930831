//! What the dock's commands do to the projects, decided here and carried out
//! by the application: creating, updating and deleting projects, adding and
//! removing windows, activating a project ("hard switch"), and the views the
//! dock is sent.
//!
//! Enumerating windows, moving them on screen, writing the store and the
//! log, and re-registering hotkeys are done by the caller with the values
//! these functions hand back.

use vstd::prelude::*;

use crate::hotkeys::{validate_combo, validation};
use crate::preferences::{stored_combo, PreferencesFile};
use crate::project::{
    is_new_window_ref, opt_view, palette_color, palette_for_index, Project, WindowRef,
    PALETTE_LEN, first_two, initials_of,
};
use crate::pruner::{class_opt, window_hwnds};
use crate::store::{index_of_id, lookup, ProjectStoreFile};
use crate::project::DroppedFingerprint;
use crate::text::{eq_ascii_ci, eq_ignore_ascii_case, is_blank, str_uppercase, to_chars, chars_to_string, to_uppercase, trim, trim_seq};
use crate::window_manager::{
    first_index, lemma_first_index, match_index, match_window, EnumeratedWindow,
};

verus! {

broadcast use vstd::seq_lib::group_seq_properties;

/// A copy of an optional string.
pub fn clone_opt_string(o: &Option<String>) -> (r: Option<String>)
    ensures
        r == *o,
{
    match o {
        Some(s) => Some(s.clone()),
        None => None,
    }
}

/// What the dock is shown of a window reference.
#[derive(Debug, Clone)]
pub struct WindowRefView {
    pub id: u128,
    pub title_snapshot: String,
    pub title_pattern: String,
    pub exe_path: String,
    /// Whether the window is bound to a live handle; a closed window shows a
    /// badge until it reappears or is removed.
    pub live: bool,
    /// Consecutive ticks the window has been missing.
    pub missed_ticks: u8,
}

/// What the dock is shown of a project (volatile handles left out).
#[derive(Debug, Clone)]
pub struct ProjectView {
    pub id: u128,
    pub name: String,
    pub color: String,
    pub initials: String,
    pub hotkey_index: Option<u8>,
    pub hotkey_combo: Option<String>,
    pub windows: Vec<WindowRefView>,
    pub created_at: i64,
    pub updated_at: i64,
    pub last_activated_at: Option<i64>,
}

/// `v` shows the reference `w`.
pub open spec fn shows_window(v: WindowRefView, w: WindowRef) -> bool {
    &&& v.id == w.id
    &&& v.title_snapshot == w.title_snapshot
    &&& v.title_pattern == w.title_pattern
    &&& v.exe_path == w.exe_path
    &&& v.live == w.live
    &&& v.missed_ticks == w.missed_ticks
}

/// `v` shows the project `p`.
pub open spec fn shows_project(v: ProjectView, p: Project) -> bool {
    &&& v.id == p.id
    &&& v.name == p.name
    &&& v.color == p.color
    &&& v.initials == p.initials
    &&& v.hotkey_index == p.hotkey_index
    &&& v.hotkey_combo == p.hotkey_combo
    &&& v.windows@.len() == p.windows@.len()
    &&& forall|i: int| 0 <= i < v.windows@.len() ==> shows_window(#[trigger] v.windows@[i], p.windows@[i])
    &&& v.created_at == p.created_at
    &&& v.updated_at == p.updated_at
    &&& v.last_activated_at == p.last_activated_at
}

impl WindowRefView {
    /// The view of `w`.
    pub fn of(w: &WindowRef) -> (v: Self)
        ensures
            shows_window(v, *w),
    {
        WindowRefView {
            id: w.id,
            title_snapshot: w.title_snapshot.clone(),
            title_pattern: w.title_pattern.clone(),
            exe_path: w.exe_path.clone(),
            live: w.live,
            missed_ticks: w.missed_ticks,
        }
    }
}

impl ProjectView {
    /// The view of `p`.
    pub fn of(p: &Project) -> (v: Self)
        ensures
            shows_project(v, *p),
    {
        let mut windows: Vec<WindowRefView> = Vec::new();
        let mut i: usize = 0;
        while i < p.windows.len()
            invariant
                i <= p.windows@.len(),
                windows@.len() == i,
                forall|j: int| 0 <= j < i ==> shows_window(#[trigger] windows@[j], p.windows@[j]),
            decreases p.windows@.len() - i,
        {
            windows.push(WindowRefView::of(&p.windows[i]));
            i = i + 1;
        }
        ProjectView {
            id: p.id,
            name: p.name.clone(),
            color: p.color.clone(),
            initials: p.initials.clone(),
            hotkey_index: p.hotkey_index,
            hotkey_combo: clone_opt_string(&p.hotkey_combo),
            windows,
            created_at: p.created_at,
            updated_at: p.updated_at,
            last_activated_at: p.last_activated_at,
        }
    }

    /// The view of `p`, consuming it.
    pub fn from_project(p: Project) -> (v: Self)
        ensures
            shows_project(v, p),
    {
        ProjectView::of(&p)
    }
}

/// The views of all projects, in order.
pub fn project_views(projects: &Vec<Project>) -> (r: Vec<ProjectView>)
    ensures
        r@.len() == projects@.len(),
        forall|i: int| 0 <= i < r@.len() ==> shows_project(#[trigger] r@[i], projects@[i]),
{
    let mut r: Vec<ProjectView> = Vec::new();
    let mut i: usize = 0;
    while i < projects.len()
        invariant
            i <= projects@.len(),
            r@.len() == i,
            forall|j: int| 0 <= j < i ==> shows_project(#[trigger] r@[j], projects@[j]),
        decreases projects@.len() - i,
    {
        r.push(ProjectView::of(&projects[i]));
        i = i + 1;
    }
    r
}

/// The optional class name of a live window: none when it is empty.
fn class_of(w: &EnumeratedWindow) -> (r: Option<String>)
    ensures
        opt_view(r) == class_opt(*w),
{
    if w.class_name.as_str().is_empty() {
        None
    } else {
        Some(w.class_name.clone())
    }
}

/// A fresh reference to the live window `w`.
fn ref_for(w: &EnumeratedWindow) -> (r: WindowRef)
    ensures
        is_new_window_ref(r, w.title@, w.exe_path@, class_opt(*w), w.hwnd),
{
    WindowRef::new(w.title.clone(), w.exe_path.clone(), class_of(w), w.hwnd)
}

/// `w` is a fresh reference to the live window `c`.
pub open spec fn refers_to(w: WindowRef, c: EnumeratedWindow) -> bool {
    is_new_window_ref(w, c.title@, c.exe_path@, class_opt(c), c.hwnd)
}

/// The input of the create-project command.
#[derive(Debug, Clone)]
pub struct CreateProjectInput {
    pub name: String,
    /// Handles picked from the live enumeration.
    pub window_hwnds: Vec<isize>,
    /// Accent colour; the palette is used round-robin when absent.
    pub color: Option<String>,
}

/// The live window's handle is among `wanted`.
pub open spec fn picked(wanted: Seq<isize>) -> spec_fn(EnumeratedWindow) -> bool {
    |w: EnumeratedWindow| wanted.contains(w.hwnd)
}

/// `p` is the project created from `input` when `count` projects exist:
/// trimmed name, references to the picked live windows in enumeration
/// order, the given colour or the palette's colour for slot `count`, and
/// hotkey slot `count + 1` while there are fewer than nine projects.
pub open spec fn is_created_project(
    p: Project,
    input: CreateProjectInput,
    live: Seq<EnumeratedWindow>,
    count: int,
) -> bool {
    let chosen = live.filter(picked(input.window_hwnds@));
    &&& p.name@ == trim_seq(input.name@)
    &&& p.color@ == match input.color {
        Some(c) => c@,
        None => palette_color(count % (PALETTE_LEN as int)),
    }
    &&& p.initials@ == initials_of(trim_seq(input.name@))
    &&& p.hotkey_index == if count < 9 {
        Some((count + 1) as u8)
    } else {
        None
    }
    &&& p.hotkey_combo is None
    &&& p.windows@.len() == chosen.len()
    &&& forall|i: int| 0 <= i < chosen.len() ==> refers_to(#[trigger] p.windows@[i], chosen[i])
    &&& p.launch_commands@.len() == 0
    &&& p.tg_chat_uri is None
    &&& p.dropped_fingerprints@.len() == 0
    &&& p.created_at == p.updated_at
    &&& p.last_activated_at is None
}

/// Whether `h` is among `hs`.
fn contains_isize(hs: &Vec<isize>, h: isize) -> (r: bool)
    ensures
        r == hs@.contains(h),
{
    let mut i: usize = 0;
    while i < hs.len()
        invariant
            i <= hs@.len(),
            forall|j: int| 0 <= j < i ==> hs@[j] != h,
        decreases hs@.len() - i,
    {
        if hs[i] == h {
            return true;
        }
        i = i + 1;
    }
    false
}

/// The project the create-project command makes (see `is_created_project`),
/// with `existing_count` projects already in the store.
pub fn new_project(input: CreateProjectInput, live: &[EnumeratedWindow], existing_count: usize) -> (p:
    Project)
    ensures
        is_created_project(p, input, live@, existing_count as int),
{
    let ghost chosen = live@.filter(picked(input.window_hwnds@));
    let mut refs: Vec<WindowRef> = Vec::new();
    let ghost mut taken: Seq<EnumeratedWindow> = Seq::empty();
    let mut i: usize = 0;
    while i < live.len()
        invariant
            i <= live@.len(),
            taken == live@.take(i as int).filter(picked(input.window_hwnds@)),
            refs@.len() == taken.len(),
            forall|j: int| 0 <= j < taken.len() ==> refers_to(#[trigger] refs@[j], taken[j]),
        decreases live@.len() - i,
    {
        let w = &live[i];
        proof {
            assert(live@.take(i + 1) =~= live@.take(i as int).push(live@[i as int]));
            live@.take(i as int).lemma_filter_push(live@[i as int], picked(input.window_hwnds@));
        }
        if contains_isize(&input.window_hwnds, w.hwnd) {
            refs.push(ref_for(w));
            proof {
                taken = taken.push(live@[i as int]);
            }
        }
        i = i + 1;
    }
    assert(live@.take(live@.len() as int) =~= live@);
    let color = match input.color {
        Some(c) => c,
        None => palette_for_index(existing_count),
    };
    let name = trim(input.name.as_str());
    let mut project = Project::new(name, color, refs);
    if existing_count < 9 {
        project.hotkey_index = Some(existing_count as u8 + 1);
    }
    project
}

/// Create a project from `input` and add it to `store`; answers its
/// position.
pub fn create_project_in(
    store: &mut ProjectStoreFile,
    input: CreateProjectInput,
    live: &[EnumeratedWindow],
) -> (r: usize)
    ensures
        r < final(store).projects@.len(),
        is_created_project(
            final(store).projects@[r as int],
            input,
            live@,
            old(store).projects@.len() as int,
        ),
        final(store).projects@ == crate::store::upserted(
            old(store).projects@,
            final(store).projects@[r as int],
        ),
        final(store).version == old(store).version,
{
    let count = store.projects.len();
    let project = new_project(input, live, count);
    let id = project.id;
    let ghost p = project;
    store.upsert(project);
    proof {
        crate::store::lemma_lookup_after_upsert(old(store).projects@, p, id);
        crate::window_manager::lemma_first_index_sound(store.projects@, crate::store::has_id(id));
    }
    match store.position(id) {
        Some(i) => i,
        None => 0,
    }
}

/// The name a deleted project is logged under: its name, or `<unknown>`.
pub fn name_or_unknown(store: &ProjectStoreFile, id: u128) -> (r: String)
    ensures
        r@ == match lookup(store.projects@, id) {
            Some(p) => p.name@,
            None => "<unknown>"@,
        },
{
    match store.get(id) {
        Some(p) => p.name.clone(),
        None => String::from_str("<unknown>"),
    }
}

/// The project that is currently active, and since when (milliseconds on a
/// monotonic clock kept by the caller).
#[derive(Debug, Clone)]
pub struct ActiveProject {
    pub id: Option<u128>,
    pub since: Option<u64>,
}

/// `now - since`, zero when the clock reads earlier than `since`.
pub open spec fn elapsed_ms(since: u64, now: u64) -> u64 {
    if now >= since {
        (now - since) as u64
    } else {
        0
    }
}

impl Default for ActiveProject {
    /// No active project.
    fn default() -> (a: Self)
        ensures
            a.id is None,
            a.since is None,
    {
        ActiveProject { id: None, since: None }
    }
}

impl ActiveProject {
    /// Make `id` the active project from `now` on; answers the previously
    /// active project and how long it was active.
    pub fn switch_to(&mut self, id: u128, now: u64) -> (r: (Option<u128>, Option<u64>))
        ensures
            r.0 == old(self).id,
            r.1 == match old(self).since {
                Some(t) => Some(elapsed_ms(t, now)),
                None => None,
            },
            final(self).id == Some(id),
            final(self).since == Some(now),
    {
        let prev = self.id;
        let duration = match self.since {
            Some(t) => Some(now.saturating_sub(t)),
            None => None,
        };
        self.id = Some(id);
        self.since = Some(now);
        (prev, duration)
    }

    /// Forget the active project if it is `id` (it was deleted).
    pub fn forget(&mut self, id: u128)
        ensures
            old(self).id == Some(id) ==> final(self).id is None && final(self).since is None,
            old(self).id != Some(id) ==> *final(self) == *old(self),
    {
        if self.id == Some(id) {
            self.id = None;
            self.since = None;
        }
    }
}

/// Validate `combo` when one is given, then store it as the dock-toggle
/// combo; a refused combo leaves the preferences unchanged.
pub fn set_dock_toggle_checked(prefs: &mut PreferencesFile, combo: Option<String>) -> (r: Result<
    (),
    String,
>)
    ensures
        match combo {
            Some(c) => match validation(c@) {
                Err(e) => r matches Err(m) && m@ == e && *final(prefs) == *old(prefs),
                Ok(_) => r is Ok && opt_view(final(prefs).dock_toggle_hotkey) == stored_combo(
                    opt_view(combo),
                ) && final(prefs).version == old(prefs).version,
            },
            None => r is Ok && final(prefs).dock_toggle_hotkey is None && final(prefs).version
                == old(prefs).version,
        },
{
    if let Some(c) = &combo {
        match validate_combo(c.as_str()) {
            Err(e) => {
                return Err(e);
            },
            Ok(_) => {},
        }
    }
    prefs.set_dock_toggle_hotkey(combo);
    Ok(())
}


/// The index of the last element of `s` that satisfies `p`.
pub open spec fn last_index<A>(s: Seq<A>, p: spec_fn(A) -> bool) -> Option<int>
    decreases s.len(),
{
    if s.len() == 0 {
        None
    } else if p(s.last()) {
        Some(s.len() - 1)
    } else {
        last_index(s.drop_last(), p)
    }
}

proof fn lemma_last_index<A>(s: Seq<A>, p: spec_fn(A) -> bool, i: int)
    requires
        -1 <= i < s.len(),
        forall|j: int| i < j < s.len() ==> !p(#[trigger] s[j]),
    ensures
        i >= 0 && p(s[i]) ==> last_index(s, p) == Some(i),
        i == -1 ==> last_index(s, p) is None,
    decreases s.len(),
{
    if s.len() > 0 && i < s.len() - 1 {
        let t = s.drop_last();
        assert forall|j: int| i < j < t.len() implies !p(#[trigger] t[j]) by {
            assert(t[j] == s[j]);
        }
        assert(!p(s[s.len() - 1]));
        lemma_last_index(t, p, i);
        if i >= 0 {
            assert(t[i] == s[i]);
        }
    }
}

/// The live window carries the handle `h`.
pub open spec fn has_hwnd(h: isize) -> spec_fn(EnumeratedWindow) -> bool {
    |w: EnumeratedWindow| w.hwnd == h
}

/// The live window with handle `h`: the last one, as a map from handle to
/// window built from the enumeration keeps it.
fn live_by_hwnd(live: &[EnumeratedWindow], h: isize) -> (r: Option<usize>)
    ensures
        r matches Some(i) ==> last_index(live@, has_hwnd(h)) == Some(i as int) && i < live@.len(),
        r is None ==> last_index(live@, has_hwnd(h)) is None,
{
    let mut i: usize = live.len();
    while i > 0
        invariant
            i <= live@.len(),
            forall|j: int| i <= j < live@.len() ==> !(has_hwnd(h))(#[trigger] live@[j]),
        decreases i,
    {
        if live[i - 1].hwnd == h {
            proof {
                lemma_last_index(live@, has_hwnd(h), i - 1);
            }
            return Some(i - 1);
        }
        i = i - 1;
    }
    proof {
        lemma_last_index(live@, has_hwnd(h), -1);
    }
    None
}

/// The live windows named by `hwnds`, in that order, skipping handles that
/// are not live.
pub open spec fn picked_indices(hwnds: Seq<isize>, live: Seq<EnumeratedWindow>) -> Seq<int>
    decreases hwnds.len(),
{
    if hwnds.len() == 0 {
        Seq::empty()
    } else {
        picked_indices(hwnds.drop_last(), live) + match last_index(live, has_hwnd(hwnds.last())) {
            Some(i) => seq![i],
            None => Seq::empty(),
        }
    }
}

/// References to the live windows `live[idx[j]]`, in order.
pub open spec fn refers_to_all(ws: Seq<WindowRef>, live: Seq<EnumeratedWindow>, idx: Seq<int>) -> bool {
    &&& ws.len() == idx.len()
    &&& forall|j: int| 0 <= j < idx.len() ==> refers_to(#[trigger] ws[j], live[idx[j]])
}

/// Fresh references to the live windows named by `hwnds`.
fn refs_for_hwnds(hwnds: &Vec<isize>, live: &[EnumeratedWindow]) -> (r: Vec<WindowRef>)
    ensures
        refers_to_all(r@, live@, picked_indices(hwnds@, live@)),
{
    let mut r: Vec<WindowRef> = Vec::new();
    let mut k: usize = 0;
    while k < hwnds.len()
        invariant
            k <= hwnds@.len(),
            refers_to_all(r@, live@, picked_indices(hwnds@.take(k as int), live@)),
        decreases hwnds@.len() - k,
    {
        assert(hwnds@.take(k + 1).drop_last() =~= hwnds@.take(k as int));
        assert(hwnds@.take(k + 1).last() == hwnds@[k as int]);
        let ghost before = picked_indices(hwnds@.take(k as int), live@);
        match live_by_hwnd(live, hwnds[k]) {
            Some(i) => {
                r.push(ref_for(&live[i]));
                assert(picked_indices(hwnds@.take(k + 1), live@) =~= before.push(i as int));
            },
            None => {
                assert(picked_indices(hwnds@.take(k + 1), live@) =~= before);
            },
        }
        k = k + 1;
    }
    assert(hwnds@.take(hwnds@.len() as int) =~= hwnds@);
    r
}

/// The input of the update-project command; `None` leaves a field as is.
#[derive(Debug, Clone)]
pub struct UpdateProjectInput {
    pub id: u128,
    pub name: Option<String>,
    pub color: Option<String>,
    pub initials: Option<String>,
    pub hotkey_index: Option<Option<u8>>,
    /// `Some(Some(_))` sets the combo, `Some(None)` clears it.
    pub hotkey_combo: Option<Option<String>>,
    /// Handles to replace the project's windows with.
    pub window_hwnds: Option<Vec<isize>>,
}

/// The message for a combo the update asks for that does not validate.
pub open spec fn update_combo_error(input: UpdateProjectInput) -> Option<Seq<char>> {
    match input.hotkey_combo {
        Some(Some(c)) => match validation(c@) {
            Err(e) => Some(e),
            Ok(_) => None,
        },
        _ => None,
    }
}

/// `new` is `old` with the update `input` applied at instant `now`.
pub open spec fn is_updated_project(
    old: Project,
    new: Project,
    input: UpdateProjectInput,
    live: Seq<EnumeratedWindow>,
    now: i64,
) -> bool {
    &&& new.id == old.id
    &&& new.name@ == match input.name {
        Some(n) => trim_seq(n@),
        None => old.name@,
    }
    &&& new.color@ == match input.color {
        Some(c) => c@,
        None => old.color@,
    }
    &&& new.initials@ == match input.initials {
        Some(t) => if trim_seq(t@).len() == 0 {
            old.initials@
        } else {
            first_two(str_uppercase(first_two(trim_seq(t@))))
        },
        None => old.initials@,
    }
    &&& new.hotkey_index == match input.hotkey_index {
        Some(h) => h,
        None => old.hotkey_index,
    }
    &&& opt_view(new.hotkey_combo) == match input.hotkey_combo {
        Some(c) => stored_combo(opt_view(c)),
        None => opt_view(old.hotkey_combo),
    }
    &&& match input.window_hwnds {
        Some(hs) => refers_to_all(new.windows@, live, picked_indices(hs@, live)),
        None => new.windows == old.windows,
    }
    &&& new.launch_commands == old.launch_commands
    &&& new.tg_chat_uri == old.tg_chat_uri
    &&& new.dropped_fingerprints == old.dropped_fingerprints
    &&& new.created_at == old.created_at
    &&& new.last_activated_at == old.last_activated_at
    &&& new.updated_at == now
}

/// The message when the addressed project does not exist.
pub open spec fn not_found() -> Seq<char> {
    "project not found"@
}

/// Apply the update-project command to `store` at instant `now` (with the
/// live windows `live`, read only when the windows are replaced). Refused,
/// with the store unchanged, when the new combo does not validate or the
/// project does not exist; else answers the project's position.
pub fn update_project_in(
    store: &mut ProjectStoreFile,
    input: UpdateProjectInput,
    live: &[EnumeratedWindow],
    now: i64,
) -> (r: Result<usize, String>)
    ensures
        match update_combo_error(input) {
            Some(e) => r matches Err(m) && m@ == e && *final(store) == *old(store),
            None => match index_of_id(old(store).projects@, input.id) {
                None => r matches Err(m) && m@ == not_found() && *final(store) == *old(store),
                Some(i) => r == Ok::<usize, String>(i as usize) && final(store).version == old(
                    store,
                ).version && final(store).projects@ == old(store).projects@.update(
                    i,
                    final(store).projects@[i],
                ) && is_updated_project(
                    old(store).projects@[i],
                    final(store).projects@[i],
                    input,
                    live@,
                    now,
                ),
            },
        },
{
    if let Some(Some(combo)) = &input.hotkey_combo {
        match validate_combo(combo.as_str()) {
            Err(e) => {
                return Err(e);
            },
            Ok(_) => {},
        }
    }
    let pos = match store.position(input.id) {
        Some(i) => i,
        None => {
            return Err(String::from_str("project not found"));
        },
    };
    let ghost before = store.projects@;
    let mut project = store.projects.remove(pos);
    let ghost p0 = project;
    if let Some(name) = input.name {
        project.name = trim(name.as_str());
    }
    if let Some(color) = input.color {
        project.color = color;
    }
    if let Some(initials) = input.initials {
        let trimmed = trim(initials.as_str());
        if !trimmed.as_str().is_empty() {
            let mut chars = to_chars(trimmed.as_str());
            let ghost all = chars@;
            chars.truncate(2);
            assert(chars@ =~= first_two(all));
            let short = chars_to_string(chars.as_slice());
            let upper = to_uppercase(short.as_str());
            let mut up_chars = to_chars(upper.as_str());
            let ghost all_up = up_chars@;
            up_chars.truncate(2);
            assert(up_chars@ =~= first_two(all_up));
            project.initials = chars_to_string(up_chars.as_slice());
        }
    }
    if let Some(hk) = input.hotkey_index {
        project.hotkey_index = hk;
    }
    if let Some(combo) = input.hotkey_combo {
        project.hotkey_combo = match combo {
            Some(c) => {
                if is_blank(c.as_str()) {
                    None
                } else {
                    Some(trim(c.as_str()))
                }
            },
            None => None,
        };
    }
    if let Some(hwnds) = input.window_hwnds {
        project.windows = refs_for_hwnds(&hwnds, live);
    }
    project.updated_at = now;
    store.projects.insert(pos, project);
    assert(store.projects@ =~= before.update(pos as int, store.projects@[pos as int]));
    Ok(pos)
}

/// Going through `hwnds` in order with the handles `seen` already in the
/// project: the live windows to add, each handle at most once.
pub open spec fn added_indices(hwnds: Seq<isize>, live: Seq<EnumeratedWindow>, seen: Seq<isize>) -> Seq<
    int,
>
    decreases hwnds.len(),
{
    if hwnds.len() == 0 {
        Seq::empty()
    } else {
        let h = hwnds[0];
        if seen.contains(h) {
            added_indices(hwnds.drop_first(), live, seen)
        } else {
            match last_index(live, has_hwnd(h)) {
                Some(i) => seq![i] + added_indices(hwnds.drop_first(), live, seen.push(h)),
                None => added_indices(hwnds.drop_first(), live, seen),
            }
        }
    }
}

/// `new` is `old` with references to the live windows `live[idx]` appended
/// at instant `now`; unchanged when there are none.
pub open spec fn windows_appended(
    old: Project,
    new: Project,
    live: Seq<EnumeratedWindow>,
    idx: Seq<int>,
    now: i64,
) -> bool {
    if idx.len() == 0 {
        new == old
    } else {
        let n = old.windows@.len();
        &&& crate::pruner::same_settings(old, new)
        &&& new.dropped_fingerprints == old.dropped_fingerprints
        &&& new.windows@.len() == n + idx.len()
        &&& new.windows@.take(n as int) == old.windows@
        &&& refers_to_all(new.windows@.skip(n as int), live, idx)
        &&& new.updated_at == now
    }
}

/// Add references to the live windows named by `hwnds` to project `id` at
/// instant `now`, skipping handles the project already holds, handles named
/// twice and handles that are not live. Answers the project's position and
/// how many were added, or refuses when the project does not exist.
pub fn add_windows_in(
    store: &mut ProjectStoreFile,
    id: u128,
    hwnds: &Vec<isize>,
    live: &[EnumeratedWindow],
    now: i64,
) -> (r: Result<(usize, usize), String>)
    ensures
        match index_of_id(old(store).projects@, id) {
            None => r matches Err(m) && m@ == not_found() && *final(store) == *old(store),
            Some(i) => {
                let idx = added_indices(
                    hwnds@,
                    live@,
                    window_hwnds(old(store).projects@[i].windows@),
                );
                &&& r == Ok::<(usize, usize), String>((i as usize, idx.len() as usize))
                &&& final(store).version == old(store).version
                &&& final(store).projects@ == old(store).projects@.update(i, final(store).projects@[i])
                &&& windows_appended(old(store).projects@[i], final(store).projects@[i], live@, idx, now)
            },
        },
{
    let pos = match store.position(id) {
        Some(i) => i,
        None => {
            return Err(String::from_str("project not found"));
        },
    };
    let ghost before = store.projects@;
    let p0 = &store.projects[pos];
    let ghost seen0 = window_hwnds(p0.windows@);
    let mut seen = collect_window_hwnds(&p0.windows);
    let n = p0.windows.len();
    let mut fresh: Vec<WindowRef> = Vec::new();
    let ghost whole = added_indices(hwnds@, live@, seen0);
    let ghost mut done: Seq<int> = Seq::empty();
    let mut k: usize = 0;
    while k < hwnds.len()
        invariant
            k <= hwnds@.len(),
            whole == added_indices(hwnds@, live@, seen0),
            done + added_indices(hwnds@.skip(k as int), live@, seen@) == whole,
            refers_to_all(fresh@, live@, done),
        decreases hwnds@.len() - k,
    {
        let h = hwnds[k];
        let ghost rest = hwnds@.skip(k as int);
        assert(rest[0] == h);
        assert(rest.drop_first() =~= hwnds@.skip(k + 1));
        if !contains_isize(&seen, h) {
            match live_by_hwnd(live, h) {
                Some(i) => {
                    fresh.push(ref_for(&live[i]));
                    let ghost seen_before = seen@;
                    seen.push(h);
                    proof {
                        assert(done.push(i as int) + added_indices(hwnds@.skip(k + 1), live@, seen@)
                            =~= done + added_indices(rest, live@, seen_before));
                        done = done.push(i as int);
                    }
                },
                None => {},
            }
        }
        k = k + 1;
    }
    assert(hwnds@.skip(hwnds@.len() as int) =~= Seq::<isize>::empty());
    assert(done + Seq::<int>::empty() =~= done);
    let added = fresh.len();
    if added > 0 {
        let mut project = store.projects.remove(pos);
        let ghost pw = project.windows@;
        let ghost fw = fresh@;
        project.windows.append(&mut fresh);
        assert(project.windows@.take(n as int) =~= pw);
        assert(project.windows@.skip(n as int) =~= fw);
        project.updated_at = now;
        store.projects.insert(pos, project);
        assert(store.projects@ =~= before.update(pos as int, store.projects@[pos as int]));
    } else {
        assert(store.projects@ =~= before.update(pos as int, store.projects@[pos as int]));
    }
    Ok((pos, added))
}

/// The handles held by the references `ws`.
fn collect_window_hwnds(ws: &Vec<WindowRef>) -> (r: Vec<isize>)
    ensures
        r@ == window_hwnds(ws@),
{
    let mut r: Vec<isize> = Vec::new();
    let mut j: usize = 0;
    while j < ws.len()
        invariant
            j <= ws@.len(),
            r@ == window_hwnds(ws@.take(j as int)),
        decreases ws@.len() - j,
    {
        assert(ws@.take(j + 1).drop_last() =~= ws@.take(j as int));
        assert(ws@.take(j + 1).last() == ws@[j as int]);
        let ghost before = r@;
        match ws[j].last_seen_hwnd {
            Some(h) => {
                r.push(h);
                assert(r@ =~= before + seq![h]);
            },
            None => {
                assert(r@ =~= before + Seq::<isize>::empty());
            },
        }
        j = j + 1;
    }
    assert(ws@.take(ws@.len() as int) =~= ws@);
    r
}


/// The reference carries the id `id`.
pub open spec fn window_has_id(id: u128) -> spec_fn(WindowRef) -> bool {
    |w: WindowRef| w.id == id
}

/// The reference does not carry the id `id`.
pub open spec fn window_lacks_id(id: u128) -> spec_fn(WindowRef) -> bool {
    |w: WindowRef| w.id != id
}

/// The fingerprint would not reattach the removed reference `w`: a
/// different executable (ignoring ASCII case) or a different pattern.
pub open spec fn not_fingerprint_of(w: WindowRef) -> spec_fn(DroppedFingerprint) -> bool {
    |fp: DroppedFingerprint|
        !(eq_ascii_ci(fp.exe_path@, w.exe_path@) && fp.title_pattern@ == w.title_pattern@)
}

/// The position of the first reference of id `id` in `ws`.
fn window_position(ws: &Vec<WindowRef>, id: u128) -> (r: Option<usize>)
    ensures
        r matches Some(k) ==> first_index(ws@, window_has_id(id)) == Some(k as int) && k
            < ws@.len(),
        r is None ==> first_index(ws@, window_has_id(id)) is None,
{
    let mut k: usize = 0;
    while k < ws.len()
        invariant
            k <= ws@.len(),
            forall|j: int| 0 <= j < k ==> !(window_has_id(id))(#[trigger] ws@[j]),
        decreases ws@.len() - k,
    {
        if ws[k].id == id {
            proof {
                lemma_first_index(ws@, window_has_id(id), k as int);
            }
            return Some(k);
        }
        k = k + 1;
    }
    proof {
        lemma_first_index(ws@, window_has_id(id), ws@.len() as int);
    }
    None
}

/// `new` is `old` without the references of id `window_id`, and without
/// the fingerprints that would reattach the removed reference `removed`,
/// updated at `now`.
pub open spec fn window_removed(
    old: Project,
    new: Project,
    window_id: u128,
    removed: WindowRef,
    now: i64,
) -> bool {
    &&& crate::pruner::same_settings(old, new)
    &&& new.windows@ == old.windows@.filter(window_lacks_id(window_id))
    &&& new.dropped_fingerprints@ == old.dropped_fingerprints@.filter(not_fingerprint_of(removed))
    &&& new.updated_at == now
}

/// Remove the reference `window_id` from project `id` at instant `now`, and
/// forget the fingerprints that would reattach it. Answers the project's
/// position and whether a reference was removed (none when the project has
/// no reference of that id, and then nothing changes), or refuses when the
/// project does not exist.
pub fn remove_window_in(store: &mut ProjectStoreFile, id: u128, window_id: u128, now: i64) -> (r:
    Result<(usize, bool), String>)
    ensures
        match index_of_id(old(store).projects@, id) {
            None => r matches Err(m) && m@ == not_found() && *final(store) == *old(store),
            Some(i) => {
                let ws = old(store).projects@[i].windows@;
                match first_index(ws, window_has_id(window_id)) {
                    None => r == Ok::<(usize, bool), String>((i as usize, false)) && *final(store)
                        == *old(store),
                    Some(k) => {
                        &&& r == Ok::<(usize, bool), String>((i as usize, true))
                        &&& final(store).version == old(store).version
                        &&& final(store).projects@ == old(store).projects@.update(
                            i,
                            final(store).projects@[i],
                        )
                        &&& window_removed(
                            old(store).projects@[i],
                            final(store).projects@[i],
                            window_id,
                            ws[k],
                            now,
                        )
                    },
                }
            },
        },
{
    let pos = match store.position(id) {
        Some(i) => i,
        None => {
            return Err(String::from_str("project not found"));
        },
    };
    let ghost ws = store.projects@[pos as int].windows@;
    let k = match window_position(&store.projects[pos].windows, window_id) {
        Some(k) => k,
        None => {
            return Ok((pos, false));
        },
    };
    let ghost before = store.projects@;
    let mut project = store.projects.remove(pos);
    let removed_exe = project.windows[k].exe_path.clone();
    let removed_pattern = project.windows[k].title_pattern.clone();
    let ghost removed = ws[k as int];
    let mut old_windows: Vec<WindowRef> = Vec::new();
    std::mem::swap(&mut old_windows, &mut project.windows);
    let mut kept: Vec<WindowRef> = Vec::new();
    for w in it: old_windows.into_iter()
        invariant
            it.seq() == ws,
            kept@ == ws.take(it.index() as int).filter(window_lacks_id(window_id)),
    {
        proof {
            assert(ws.take(it.index() + 1) =~= ws.take(it.index() as int).push(w));
            ws.take(it.index() as int).lemma_filter_push(w, window_lacks_id(window_id));
        }
        if w.id != window_id {
            kept.push(w);
        }
    }
    assert(ws.take(ws.len() as int) =~= ws);
    project.windows = kept;
    let ghost fps = project.dropped_fingerprints@;
    let mut old_fps: Vec<DroppedFingerprint> = Vec::new();
    std::mem::swap(&mut old_fps, &mut project.dropped_fingerprints);
    let mut kept_fps: Vec<DroppedFingerprint> = Vec::new();
    for fp in it: old_fps.into_iter()
        invariant
            it.seq() == fps,
            removed_exe@ == removed.exe_path@,
            removed_pattern@ == removed.title_pattern@,
            kept_fps@ == fps.take(it.index() as int).filter(not_fingerprint_of(removed)),
    {
        proof {
            assert(fps.take(it.index() + 1) =~= fps.take(it.index() as int).push(fp));
            fps.take(it.index() as int).lemma_filter_push(fp, not_fingerprint_of(removed));
        }
        if !(eq_ignore_ascii_case(fp.exe_path.as_str(), removed_exe.as_str())
            && fp.title_pattern == removed_pattern) {
            kept_fps.push(fp);
        }
    }
    assert(fps.take(fps.len() as int) =~= fps);
    project.dropped_fingerprints = kept_fps;
    project.updated_at = now;
    store.projects.insert(pos, project);
    assert(store.projects@ =~= before.update(pos as int, store.projects@[pos as int]));
    Ok((pos, true))
}


/// The reference as activation leaves it: bound to the handle of the live
/// window it matches, or to none.
pub open spec fn activated_ref(w: WindowRef, live: Seq<EnumeratedWindow>) -> WindowRef {
    WindowRef {
        last_seen_hwnd: match match_index(w, live) {
            Some(i) => Some(live[i].hwnd),
            None => None,
        },
        ..w
    }
}

/// The handles of the live windows the references match, in order.
pub open spec fn matched_hwnds(ws: Seq<WindowRef>, live: Seq<EnumeratedWindow>) -> Seq<isize>
    decreases ws.len(),
{
    if ws.len() == 0 {
        Seq::empty()
    } else {
        matched_hwnds(ws.drop_last(), live) + match match_index(ws.last(), live) {
            Some(i) => seq![live[i].hwnd],
            None => Seq::empty(),
        }
    }
}

/// The titles of the references that match no live window, in order.
pub open spec fn missing_titles(ws: Seq<WindowRef>, live: Seq<EnumeratedWindow>) -> Seq<Seq<char>>
    decreases ws.len(),
{
    if ws.len() == 0 {
        Seq::empty()
    } else {
        missing_titles(ws.drop_last(), live) + match match_index(ws.last(), live) {
            Some(_) => Seq::empty(),
            None => seq![ws.last().title_snapshot@],
        }
    }
}

/// The live windows activation minimises: those not kept and not already
/// minimised, in enumeration order.
pub open spec fn minimize_list(live: Seq<EnumeratedWindow>, keep: Seq<isize>) -> Seq<isize>
    decreases live.len(),
{
    if live.len() == 0 {
        Seq::empty()
    } else {
        minimize_list(live.drop_last(), keep) + if !keep.contains(live.last().hwnd)
            && !live.last().minimized {
            seq![live.last().hwnd]
        } else {
            Seq::empty()
        }
    }
}

/// The reference is bound to a handle.
pub open spec fn is_bound() -> spec_fn(WindowRef) -> bool {
    |w: WindowRef| w.last_seen_hwnd is Some
}

/// The handles of the first `k` references that are bound, except the
/// primary one, in order: the windows raised without focus.
pub open spec fn raise_list(ws: Seq<WindowRef>, primary: Option<int>, k: int) -> Seq<isize>
    decreases k,
{
    if k <= 0 {
        Seq::empty()
    } else {
        raise_list(ws, primary, k - 1) + if primary != Some(k - 1) && ws[k - 1].last_seen_hwnd is Some {
            seq![ws[k - 1].last_seen_hwnd->0]
        } else {
            Seq::empty()
        }
    }
}

/// `new` is `old` after activation at instant `now`: references rebound,
/// activation time and update time set, nothing else changed.
pub open spec fn activated_project(
    old: Project,
    new: Project,
    live: Seq<EnumeratedWindow>,
    now: i64,
) -> bool {
    &&& new.id == old.id
    &&& new.name == old.name
    &&& new.color == old.color
    &&& new.initials == old.initials
    &&& new.hotkey_index == old.hotkey_index
    &&& new.hotkey_combo == old.hotkey_combo
    &&& new.launch_commands == old.launch_commands
    &&& new.tg_chat_uri == old.tg_chat_uri
    &&& new.dropped_fingerprints == old.dropped_fingerprints
    &&& new.created_at == old.created_at
    &&& new.last_activated_at == Some(now)
    &&& new.updated_at == now
    &&& new.windows@ == old.windows@.map_values(|w: WindowRef| activated_ref(w, live))
}

/// What activating a project ("hard switch") does on screen, and what it
/// reports.
#[derive(Debug, Clone)]
pub struct ActivationPlan {
    /// Position of the project in the store.
    pub project_index: usize,
    /// Windows to minimise.
    pub to_minimize: Vec<isize>,
    /// Project windows to show without taking focus.
    pub to_raise: Vec<isize>,
    /// The window to focus last, with its title.
    pub primary: Option<(isize, String)>,
    /// Titles of the project's windows that are not open.
    pub missing: Vec<String>,
    pub windows_focused: usize,
    pub windows_minimized: usize,
}

/// The views of a list of strings.
pub open spec fn titles_view(v: Seq<String>) -> Seq<Seq<char>> {
    v.map_values(|s: String| s@)
}

/// The position of the first reference that is bound to a handle.
fn first_bound(ws: &Vec<WindowRef>) -> (r: Option<usize>)
    ensures
        r matches Some(k) ==> first_index(ws@, is_bound()) == Some(k as int) && k < ws@.len(),
        r is None ==> first_index(ws@, is_bound()) is None,
{
    let mut k: usize = 0;
    while k < ws.len()
        invariant
            k <= ws@.len(),
            forall|m: int| 0 <= m < k ==> !(is_bound())(#[trigger] ws@[m]),
        decreases ws@.len() - k,
    {
        if ws[k].last_seen_hwnd.is_some() {
            proof {
                lemma_first_index(ws@, is_bound(), k as int);
            }
            return Some(k);
        }
        k = k + 1;
    }
    proof {
        lemma_first_index(ws@, is_bound(), ws@.len() as int);
    }
    None
}

/// Plan the activation of project `id` at instant `now`, with the live
/// windows `live` and the dock's own window `dock` (never minimised):
/// rebind the project's references, minimise every other live window that
/// is not minimised, raise the project's bound windows and focus the first
/// one. The store records the new handles and the activation time. Refused
/// when the project does not exist.
pub fn plan_activation(
    store: &mut ProjectStoreFile,
    id: u128,
    live: &[EnumeratedWindow],
    dock: Option<isize>,
    now: i64,
) -> (r: Result<ActivationPlan, String>)
    ensures
        match index_of_id(old(store).projects@, id) {
            None => r matches Err(m) && m@ == not_found() && *final(store) == *old(store),
            Some(i) => r matches Ok(plan) && {
                let ws = old(store).projects@[i].windows@;
                let nws = final(store).projects@[i].windows@;
                let keep = matched_hwnds(ws, live@) + match dock {
                    Some(d) => seq![d],
                    None => Seq::empty(),
                };
                let pi = first_index(nws, is_bound());
                &&& plan.project_index == i
                &&& final(store).version == old(store).version
                &&& final(store).projects@ == old(store).projects@.update(i, final(store).projects@[i])
                &&& activated_project(old(store).projects@[i], final(store).projects@[i], live@, now)
                &&& titles_view(plan.missing@) == missing_titles(ws, live@)
                &&& plan.to_minimize@ == minimize_list(live@, keep)
                &&& match pi {
                    Some(k) => plan.primary matches Some(pr) && pr.0 == nws[k].last_seen_hwnd->0
                        && pr.1@ == nws[k].title_snapshot@,
                    None => plan.primary is None,
                }
                &&& plan.to_raise@ == raise_list(nws, pi, nws.len() as int)
                &&& plan.windows_focused == plan.to_raise@.len() + if pi is Some {
                    1int
                } else {
                    0int
                }
                &&& plan.windows_minimized == plan.to_minimize@.len()
            },
        },
{
    let pos = match store.position(id) {
        Some(i) => i,
        None => {
            return Err(String::from_str("project not found"));
        },
    };
    let ghost before = store.projects@;
    let mut project = store.projects.remove(pos);
    let ghost ws = project.windows@;
    let mut old_windows: Vec<WindowRef> = Vec::new();
    std::mem::swap(&mut old_windows, &mut project.windows);
    // Re-bind stored windows to live handles.
    let mut nws: Vec<WindowRef> = Vec::new();
    let mut keep: Vec<isize> = Vec::new();
    let mut missing: Vec<String> = Vec::new();
    for w in it: old_windows.into_iter()
        invariant
            it.seq() == ws,
            nws@ == ws.take(it.index() as int).map_values(|x: WindowRef| activated_ref(x, live@)),
            keep@ == matched_hwnds(ws.take(it.index() as int), live@),
            titles_view(missing@) == missing_titles(ws.take(it.index() as int), live@),
    {
        let ghost k = it.index() as int;
        assert(ws.take(k + 1).drop_last() =~= ws.take(k));
        assert(ws.take(k + 1).last() == w);
        let ghost keep0 = keep@;
        let ghost missing0 = missing@;
        let mut w = w;
        match match_window(&w, live) {
            Some(found) => {
                w.last_seen_hwnd = Some(found.hwnd);
                keep.push(found.hwnd);
                assert(keep@ =~= keep0 + seq![found.hwnd]);
                assert(titles_view(missing@) =~= titles_view(missing0) + Seq::<Seq<char>>::empty());
            },
            None => {
                w.last_seen_hwnd = None;
                missing.push(w.title_snapshot.clone());
                assert(keep@ =~= keep0 + Seq::<isize>::empty());
                assert(titles_view(missing@) =~= titles_view(missing0) + seq![w.title_snapshot@]);
            },
        }
        let ghost nws0 = nws@;
        nws.push(w);
        assert(nws@ =~= ws.take(k + 1).map_values(|x: WindowRef| activated_ref(x, live@)));
    }
    assert(ws.take(ws.len() as int) =~= ws);
    let ghost matched = keep@;
    // The dock itself is never minimised.
    match dock {
        Some(d) => {
            keep.push(d);
            assert(keep@ =~= matched + seq![d]);
        },
        None => {
            assert(keep@ =~= matched + Seq::<isize>::empty());
        },
    }
    // Minimise everything else.
    let mut to_minimize: Vec<isize> = Vec::new();
    let mut i: usize = 0;
    while i < live.len()
        invariant
            i <= live@.len(),
            to_minimize@ == minimize_list(live@.take(i as int), keep@),
        decreases live@.len() - i,
    {
        assert(live@.take(i + 1).drop_last() =~= live@.take(i as int));
        assert(live@.take(i + 1).last() == live@[i as int]);
        let ghost before_min = to_minimize@;
        if !contains_isize(&keep, live[i].hwnd) && !live[i].minimized {
            to_minimize.push(live[i].hwnd);
            assert(to_minimize@ =~= before_min + seq![live@[i as int].hwnd]);
        } else {
            assert(to_minimize@ =~= before_min + Seq::<isize>::empty());
        }
        i = i + 1;
    }
    assert(live@.take(live@.len() as int) =~= live@);
    // The primary window: the first one that is bound.
    let ghost nv = nws@;
    let primary_idx = first_bound(&nws);
    let ghost pi = first_index(nv, is_bound());
    assert(primary_idx matches Some(p) ==> pi == Some(p as int) && p < nv.len());
    assert(primary_idx is None ==> pi is None);
    // Raise every other bound window without focus.
    let mut to_raise: Vec<isize> = Vec::new();
    let mut j: usize = 0;
    while j < nws.len()
        invariant
            nv == nws@,
            j <= nv.len(),
            primary_idx matches Some(p) ==> pi == Some(p as int),
            primary_idx is None ==> pi is None,
            to_raise@ == raise_list(nv, pi, j as int),
            to_raise@.len() + (if pi matches Some(p) && p < j {
                1int
            } else {
                0int
            }) <= j,
        decreases nv.len() - j,
    {
        let ghost before_raise = to_raise@;
        let is_primary = match primary_idx {
            Some(p) => p == j,
            None => false,
        };
        if !is_primary && nws[j].last_seen_hwnd.is_some() {
            to_raise.push(nws[j].last_seen_hwnd.unwrap());
            assert(to_raise@ =~= before_raise + seq![nv[j as int].last_seen_hwnd->0]);
        } else {
            assert(to_raise@ =~= before_raise + Seq::<isize>::empty());
        }
        j = j + 1;
    }
    proof {
        crate::window_manager::lemma_first_index_sound(nv, is_bound());
    }
    let primary = match primary_idx {
        Some(p) => Some((nws[p].last_seen_hwnd.unwrap(), nws[p].title_snapshot.clone())),
        None => None,
    };
    let windows_focused = if primary_idx.is_some() {
        to_raise.len() + 1
    } else {
        to_raise.len()
    };
    let windows_minimized = to_minimize.len();
    project.windows = nws;
    project.last_activated_at = Some(now);
    project.updated_at = now;
    store.projects.insert(pos, project);
    assert(store.projects@ =~= before.update(pos as int, store.projects@[pos as int]));
    Ok(
        ActivationPlan {
            project_index: pos,
            to_minimize,
            to_raise,
            primary,
            missing,
            windows_focused,
            windows_minimized,
        },
    )
}

/// What activating a project answers: the project as it now is, and how
/// many windows were focused and minimised and which were missing.
#[derive(Debug, Clone)]
pub struct ActivationResult {
    pub project: ProjectView,
    pub windows_focused: usize,
    pub windows_minimized: usize,
    pub windows_missing: Vec<String>,
}

impl ActivationResult {
    /// The result of carrying out `plan` on `project` (the project as the
    /// store holds it after the plan was made).
    pub fn of_plan(plan: ActivationPlan, project: &Project) -> (r: Self)
        ensures
            shows_project(r.project, *project),
            r.windows_focused == plan.windows_focused,
            r.windows_minimized == plan.windows_minimized,
            r.windows_missing == plan.missing,
    {
        ActivationResult {
            project: ProjectView::of(project),
            windows_focused: plan.windows_focused,
            windows_minimized: plan.windows_minimized,
            windows_missing: plan.missing,
        }
    }
}


/// Activation never minimises a window it keeps: neither a window of the
/// project nor the dock.
pub proof fn lemma_minimized_never_kept(live: Seq<EnumeratedWindow>, keep: Seq<isize>)
    ensures
        forall|j: int|
            0 <= j < minimize_list(live, keep).len() ==> !keep.contains(
                #[trigger] minimize_list(live, keep)[j],
            ),
    decreases live.len(),
{
    if live.len() > 0 {
        lemma_minimized_never_kept(live.drop_last(), keep);
        let a = minimize_list(live.drop_last(), keep);
        assert forall|j: int| 0 <= j < minimize_list(live, keep).len() implies !keep.contains(
            #[trigger] minimize_list(live, keep)[j],
        ) by {
            if j < a.len() {
                assert(minimize_list(live, keep)[j] == a[j]);
            }
        }
    }
}

proof fn lemma_last_index_sound<A>(s: Seq<A>, p: spec_fn(A) -> bool)
    ensures
        last_index(s, p) matches Some(i) ==> 0 <= i < s.len() && p(s[i]),
    decreases s.len(),
{
    if s.len() > 0 && !p(s.last()) {
        lemma_last_index_sound(s.drop_last(), p);
        if last_index(s.drop_last(), p) is Some {
            let i = last_index(s.drop_last(), p)->0;
            assert(s.drop_last()[i] == s[i]);
        }
    }
}

/// The handles of the live windows `live[idx]`.
pub open spec fn handles_at(live: Seq<EnumeratedWindow>, idx: Seq<int>) -> Seq<isize> {
    idx.map_values(|i: int| live[i].hwnd)
}

/// Adding windows never duplicates a window: each added window is a live
/// window named in the request, whose handle the project did not already
/// hold, and no handle is added twice.
pub proof fn lemma_added_windows_distinct(
    hwnds: Seq<isize>,
    live: Seq<EnumeratedWindow>,
    seen: Seq<isize>,
)
    ensures
        ({
            let idx = added_indices(hwnds, live, seen);
            let hs = handles_at(live, idx);
            &&& forall|j: int| 0 <= j < idx.len() ==> 0 <= #[trigger] idx[j] < live.len()
            &&& forall|j: int| 0 <= j < hs.len() ==> !seen.contains(#[trigger] hs[j])
            &&& forall|j: int| 0 <= j < hs.len() ==> hwnds.contains(#[trigger] hs[j])
            &&& forall|a: int, b: int| 0 <= a < b < hs.len() ==> hs[a] != hs[b]
        }),
    decreases hwnds.len(),
{
    if hwnds.len() > 0 {
        let h = hwnds[0];
        let t = hwnds.drop_first();
        if seen.contains(h) {
            lemma_added_windows_distinct(t, live, seen);
            assert(added_indices(hwnds, live, seen) == added_indices(t, live, seen));
            let hs = handles_at(live, added_indices(hwnds, live, seen));
            assert forall|j: int| 0 <= j < hs.len() implies hwnds.contains(#[trigger] hs[j]) by {
                assert(t.contains(hs[j]));
                let m = choose|m: int| 0 <= m < t.len() && t[m] == hs[j];
                assert(hwnds[m + 1] == hs[j]);
            }
        } else {
            lemma_last_index_sound(live, has_hwnd(h));
            match last_index(live, has_hwnd(h)) {
                Some(i) => {
                    let s2 = seen.push(h);
                    lemma_added_windows_distinct(t, live, s2);
                    let idx2 = added_indices(t, live, s2);
                    let hs2 = handles_at(live, idx2);
                    let idx = added_indices(hwnds, live, seen);
                    let hs = handles_at(live, idx);
                    assert(idx =~= seq![i] + idx2);
                    assert(hs =~= seq![h] + hs2);
                    assert forall|j: int| 0 <= j < idx.len() implies 0 <= #[trigger] idx[j] < live.len() by {
                        if j > 0 {
                            assert(idx[j] == idx2[j - 1]);
                        }
                    }
                    assert forall|j: int| 0 <= j < hs.len() implies !seen.contains(#[trigger] hs[j]) by {
                        if j > 0 {
                            assert(hs[j] == hs2[j - 1]);
                            if seen.contains(hs2[j - 1]) {
                                let m = choose|m: int| 0 <= m < seen.len() && seen[m] == hs2[j - 1];
                                assert(s2[m] == hs2[j - 1]);
                            }
                        }
                    }
                    assert forall|j: int| 0 <= j < hs.len() implies hwnds.contains(#[trigger] hs[j]) by {
                        if j == 0 {
                            assert(hwnds[0] == hs[0]);
                        } else {
                            assert(hs[j] == hs2[j - 1]);
                            assert(t.contains(hs2[j - 1]));
                            let m = choose|m: int| 0 <= m < t.len() && t[m] == hs2[j - 1];
                            assert(hwnds[m + 1] == hs[j]);
                        }
                    }
                    assert forall|a: int, b: int| 0 <= a < b < hs.len() implies hs[a] != hs[b] by {
                        assert(hs[b] == hs2[b - 1]);
                        if a == 0 {
                            assert(s2[seen.len() as int] == h);
                        } else {
                            assert(hs[a] == hs2[a - 1]);
                        }
                    }
                },
                None => {
                    lemma_added_windows_distinct(t, live, seen);
                    assert(added_indices(hwnds, live, seen) == added_indices(t, live, seen));
                    let hs = handles_at(live, added_indices(hwnds, live, seen));
                    assert forall|j: int| 0 <= j < hs.len() implies hwnds.contains(#[trigger] hs[j]) by {
                        assert(t.contains(hs[j]));
                        let m = choose|m: int| 0 <= m < t.len() && t[m] == hs[j];
                        assert(hwnds[m + 1] == hs[j]);
                    }
                },
            }
        }
    }
}

/// Once a window reference is removed from a project, no reference of that
/// id remains and no fingerprint is left that would reattach it.
pub proof fn lemma_removed_window_stays_removed(
    old: Project,
    new: Project,
    window_id: u128,
    removed: WindowRef,
    now: i64,
)
    requires
        window_removed(old, new, window_id, removed, now),
    ensures
        forall|j: int| 0 <= j < new.windows@.len() ==> (#[trigger] new.windows@[j]).id != window_id,
        forall|j: int|
            0 <= j < new.dropped_fingerprints@.len() ==> !(eq_ascii_ci(
                (#[trigger] new.dropped_fingerprints@[j]).exe_path@,
                removed.exe_path@,
            ) && new.dropped_fingerprints@[j].title_pattern@ == removed.title_pattern@),
{
    broadcast use vstd::seq_lib::group_filter_ensures;

    assert forall|j: int| 0 <= j < new.windows@.len() implies (
    #[trigger] new.windows@[j]).id != window_id by {
        assert((window_lacks_id(window_id))(new.windows@[j]));
    }
    assert forall|j: int| 0 <= j < new.dropped_fingerprints@.len() implies !(eq_ascii_ci(
        (#[trigger] new.dropped_fingerprints@[j]).exe_path@,
        removed.exe_path@,
    ) && new.dropped_fingerprints@[j].title_pattern@ == removed.title_pattern@) by {
        assert((not_fingerprint_of(removed))(new.dropped_fingerprints@[j]));
    }
}

/// A window that satisfies `p` has a last one that does.
proof fn lemma_last_index_found<A>(s: Seq<A>, p: spec_fn(A) -> bool, i: int)
    requires
        0 <= i < s.len(),
        p(s[i]),
    ensures
        last_index(s, p) is Some,
    decreases s.len(),
{
    if !p(s.last()) {
        assert(i < s.len() - 1);
        assert(s.drop_last()[i] == s[i]);
        lemma_last_index_found(s.drop_last(), p, i);
    }
}

/// A created project references every live window whose handle was picked,
/// whatever its state (minimised or not), and nothing else: each of its
/// references is bound to a picked live window.
pub proof fn lemma_created_project_covers_picked(
    p: Project,
    input: CreateProjectInput,
    live: Seq<EnumeratedWindow>,
    count: int,
)
    requires
        is_created_project(p, input, live, count),
    ensures
        forall|i: int|
            0 <= i < live.len() && input.window_hwnds@.contains(#[trigger] live[i].hwnd) ==> exists|
                j: int,
            |
                0 <= j < p.windows@.len() && (#[trigger] p.windows@[j]).last_seen_hwnd == Some(
                    live[i].hwnd,
                ),
        forall|j: int|
            0 <= j < p.windows@.len() ==> ((#[trigger] p.windows@[j]).last_seen_hwnd matches Some(h)
                && input.window_hwnds@.contains(h) && exists|i: int|
                0 <= i < live.len() && (#[trigger] live[i]).hwnd == h),
{
    let pred = picked(input.window_hwnds@);
    let chosen = live.filter(pred);
    assert forall|i: int|
        0 <= i < live.len() && input.window_hwnds@.contains(#[trigger] live[i].hwnd) implies exists|
            j: int,
        |
            0 <= j < p.windows@.len() && (#[trigger] p.windows@[j]).last_seen_hwnd == Some(
                live[i].hwnd,
            ) by {
        assert(pred(live[i]));
        live.lemma_filter_contains(pred, i);
        let j = choose|j: int| 0 <= j < chosen.len() && chosen[j] == live[i];
        assert(refers_to(p.windows@[j], chosen[j]));
    }
    assert forall|j: int| 0 <= j < p.windows@.len() implies ((
    #[trigger] p.windows@[j]).last_seen_hwnd matches Some(h) && input.window_hwnds@.contains(h)
        && exists|i: int| 0 <= i < live.len() && (#[trigger] live[i]).hwnd == h) by {
        assert(refers_to(p.windows@[j], chosen[j]));
        live.lemma_filter_pred(pred, j);
        live.lemma_filter_contains_rev(pred, chosen[j]);
        let i = choose|i: int| 0 <= i < live.len() && live[i] == chosen[j];
        assert(input.window_hwnds@.contains(live[i].hwnd));
        assert(p.windows@[j].last_seen_hwnd == Some(live[i].hwnd));
    }
}

/// Going through requested handles, every handle that names a live window
/// and is not among `seen` gets a window added for it.
proof fn lemma_added_indices_cover(
    hwnds: Seq<isize>,
    live: Seq<EnumeratedWindow>,
    seen: Seq<isize>,
    h: isize,
    i: int,
)
    requires
        hwnds.contains(h),
        !seen.contains(h),
        0 <= i < live.len(),
        live[i].hwnd == h,
    ensures
        exists|j: int|
            0 <= j < added_indices(hwnds, live, seen).len() && live[#[trigger] added_indices(
                hwnds,
                live,
                seen,
            )[j]].hwnd == h,
    decreases hwnds.len(),
{
    let h0 = hwnds[0];
    let t = hwnds.drop_first();
    let idx = added_indices(hwnds, live, seen);
    lemma_last_index_found(live, has_hwnd(h), i);
    lemma_last_index_sound(live, has_hwnd(h0));
    if h0 == h {
        lemma_last_index_sound(live, has_hwnd(h));
        let k = last_index(live, has_hwnd(h))->0;
        assert(idx[0] == k);
    } else {
        let m = choose|m: int| 0 <= m < hwnds.len() && hwnds[m] == h;
        assert(t[m - 1] == h);
        if seen.contains(h0) || last_index(live, has_hwnd(h0)) is None {
            lemma_added_indices_cover(t, live, seen, h, i);
            assert(idx == added_indices(t, live, seen));
        } else {
            let s2 = seen.push(h0);
            assert(!s2.contains(h)) by {
                if s2.contains(h) {
                    let q = choose|q: int| 0 <= q < s2.len() && s2[q] == h;
                    if q < seen.len() {
                        assert(seen[q] == h);
                    }
                }
            }
            lemma_added_indices_cover(t, live, s2, h, i);
            let idx2 = added_indices(t, live, s2);
            let j = choose|j: int| 0 <= j < idx2.len() && live[#[trigger] idx2[j]].hwnd == h;
            assert(idx[j + 1] == idx2[j]);
        }
    }
}

/// Adding windows adds every requested live window that the project does
/// not hold yet, whatever its state (minimised or not): a new reference
/// bound to it follows the project's earlier references.
pub proof fn lemma_add_windows_covers_request(
    old: Project,
    new: Project,
    hwnds: Seq<isize>,
    live: Seq<EnumeratedWindow>,
    now: i64,
    h: isize,
    i: int,
)
    requires
        windows_appended(old, new, live, added_indices(hwnds, live, window_hwnds(old.windows@)), now),
        hwnds.contains(h),
        0 <= i < live.len(),
        live[i].hwnd == h,
        forall|j: int| 0 <= j < old.windows@.len() ==> (#[trigger] old.windows@[j]).last_seen_hwnd
            != Some(h),
    ensures
        exists|j: int|
            old.windows@.len() <= j < new.windows@.len() && (#[trigger] new.windows@[j]).last_seen_hwnd
                == Some(h),
{
    let seen = window_hwnds(old.windows@);
    crate::pruner::lemma_window_hwnds_contains(old.windows@, h);
    lemma_added_indices_cover(hwnds, live, seen, h, i);
    let idx = added_indices(hwnds, live, seen);
    let j = choose|j: int| 0 <= j < idx.len() && live[#[trigger] idx[j]].hwnd == h;
    let n = old.windows@.len();
    assert(refers_to(new.windows@.skip(n as int)[j], live[idx[j]]));
    assert(new.windows@[n + j] == new.windows@.skip(n as int)[j]);
}

/// Replacing a project's windows references every requested live window,
/// whatever its state (minimised or not).
pub proof fn lemma_update_windows_cover_request(
    old: Project,
    new: Project,
    input: UpdateProjectInput,
    live: Seq<EnumeratedWindow>,
    now: i64,
    h: isize,
    i: int,
)
    requires
        is_updated_project(old, new, input, live, now),
        input.window_hwnds is Some,
        input.window_hwnds->0@.contains(h),
        0 <= i < live.len(),
        live[i].hwnd == h,
    ensures
        exists|j: int| 0 <= j < new.windows@.len() && (#[trigger] new.windows@[j]).last_seen_hwnd == Some(h),
{
    let hs = input.window_hwnds->0@;
    lemma_picked_indices_cover(hs, live, h, i);
    let idx = picked_indices(hs, live);
    let j = choose|j: int| 0 <= j < idx.len() && live[#[trigger] idx[j]].hwnd == h;
    assert(refers_to(new.windows@[j], live[idx[j]]));
}

/// Every requested handle that names a live window is among the picked
/// windows.
proof fn lemma_picked_indices_cover(hwnds: Seq<isize>, live: Seq<EnumeratedWindow>, h: isize, i: int)
    requires
        hwnds.contains(h),
        0 <= i < live.len(),
        live[i].hwnd == h,
    ensures
        exists|j: int|
            0 <= j < picked_indices(hwnds, live).len() && live[#[trigger] picked_indices(
                hwnds,
                live,
            )[j]].hwnd == h,
    decreases hwnds.len(),
{
    let t = hwnds.drop_last();
    let idx = picked_indices(hwnds, live);
    if hwnds.last() == h {
        lemma_last_index_found(live, has_hwnd(h), i);
        lemma_last_index_sound(live, has_hwnd(h));
        let k = last_index(live, has_hwnd(h))->0;
        assert(idx[picked_indices(t, live).len() as int] == k);
    } else {
        let m = choose|m: int| 0 <= m < hwnds.len() && hwnds[m] == h;
        assert(t[m] == h);
        lemma_picked_indices_cover(t, live, h, i);
        let idx2 = picked_indices(t, live);
        let j = choose|j: int| 0 <= j < idx2.len() && live[#[trigger] idx2[j]].hwnd == h;
        assert(idx[j] == idx2[j]);
    }
}

} // verus!
