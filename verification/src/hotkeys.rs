//! Global hotkeys: parsing and validating combos, the canonical text of a
//! parsed shortcut, the combo each project activates on, and the routing
//! table that maps a fired shortcut to what it does.
//!
//! Registering a shortcut with the operating system is I/O and happens
//! outside this crate; the decisions around it are made here.

use global_hotkey::hotkey::{HotKey, Modifiers};

use vstd::prelude::*;

use crate::project::{opt_view, Project};
use crate::text::{chars_to_string, is_blank, trim, trim_seq};
use crate::window_manager::{first_index, lemma_first_index};

verus! {

/// A parsed shortcut as the dock reads it: which modifiers it holds and the
/// name of its main key (as `Code`'s `Debug` prints it, e.g. `Digit5`).
#[derive(Debug, Clone)]
pub struct ShortcutParts {
    pub ctrl: bool,
    pub alt: bool,
    pub shift: bool,
    pub win: bool,
    pub key: String,
}

impl View for ShortcutParts {
    type V = (bool, bool, bool, bool, Seq<char>);

    open spec fn view(&self) -> (bool, bool, bool, bool, Seq<char>) {
        (self.ctrl, self.alt, self.shift, self.win, self.key@)
    }
}

/// What `global_hotkey`'s `HotKey::from_str` (the `Shortcut` parser of the
/// global-shortcut plugin) makes of `combo`: the modifiers and key name of
/// the shortcut, or the text of its parse error.
pub uninterp spec fn hotkey_parse(combo: Seq<char>) -> Result<
    (bool, bool, bool, bool, Seq<char>),
    Seq<char>,
>;

/// Calls `global_hotkey::hotkey::HotKey::from_str` on `combo` (through
/// `str::parse`). On success
/// it reads the control, alt, shift and super modifier flags and prints the
/// key with `Debug`; on failure it prints the error with `Display`. The
/// outcome is a function of `combo` alone: the contract names it.
#[verifier::external_body]
fn parse_shortcut(combo: &str) -> (r: Result<ShortcutParts, String>)
    ensures
        hotkey_parse(combo@) == match r {
            Ok(p) => Ok(p@),
            Err(e) => Err(e@),
        },
{
    match combo.parse::<HotKey>() {
        Ok(hk) => Ok(ShortcutParts {
            ctrl: hk.mods.contains(Modifiers::CONTROL),
            alt: hk.mods.contains(Modifiers::ALT),
            shift: hk.mods.contains(Modifiers::SHIFT),
            win: hk.mods.contains(Modifiers::SUPER),
            key: format!("{:?}", hk.key),
        }),
        Err(e) => Err(format!("{e}")),
    }
}

/// `Ctrl`, `Alt`, `Shift`, `Win` for the modifiers held, then the key, each
/// followed by `+` but the last.
pub open spec fn shortcut_label(s: (bool, bool, bool, bool, Seq<char>)) -> Seq<char> {
    (if s.0 {
        "Ctrl+"@
    } else {
        Seq::empty()
    }) + (if s.1 {
        "Alt+"@
    } else {
        Seq::empty()
    }) + (if s.2 {
        "Shift+"@
    } else {
        Seq::empty()
    }) + (if s.3 {
        "Win+"@
    } else {
        Seq::empty()
    }) + s.4
}

/// The canonical text of a shortcut (e.g. `Ctrl+Alt+Digit5`), used as its
/// key in the routing table.
pub open spec fn canonical_combo(s: (bool, bool, bool, bool, Seq<char>)) -> Seq<char> {
    shortcut_label(s)
}

/// `t` with the prefix `p` taken off, and whether it was there.
pub open spec fn strip_prefix(t: Seq<char>, p: Seq<char>) -> (bool, Seq<char>) {
    if t.len() >= p.len() && t.take(p.len() as int) == p {
        (true, t.skip(p.len() as int))
    } else {
        (false, t)
    }
}

/// Reading a canonical text back: the `Ctrl+`, `Alt+`, `Shift+` and `Win+`
/// prefixes present, in that order, and the key text that follows them.
pub open spec fn read_label(t: Seq<char>) -> (bool, bool, bool, bool, Seq<char>) {
    let c = strip_prefix(t, "Ctrl+"@);
    let a = strip_prefix(c.1, "Alt+"@);
    let s = strip_prefix(a.1, "Shift+"@);
    let w = strip_prefix(s.1, "Win+"@);
    (c.0, a.0, s.0, w.0, w.1)
}

proof fn lemma_strip_present(p: Seq<char>, rest: Seq<char>)
    ensures
        strip_prefix(p + rest, p) == (true, rest),
{
    assert((p + rest).take(p.len() as int) =~= p);
    assert((p + rest).skip(p.len() as int) =~= rest);
}

proof fn lemma_strip_absent(t: Seq<char>, p: Seq<char>, i: int)
    requires
        0 <= i < p.len(),
        i < t.len() ==> t[i] != p[i],
    ensures
        strip_prefix(t, p) == (false, t),
{
    if t.len() >= p.len() {
        assert(t.take(p.len() as int)[i] != p[i]);
    }
}

/// A canonical text reads back as the shortcut it was made from, when the
/// key text holds no `+` (no key name does).
pub proof fn lemma_read_label(s: (bool, bool, bool, bool, Seq<char>))
    requires
        !s.4.contains('+'),
    ensures
        read_label(shortcut_label(s)) == s,
{
    reveal_strlit("Ctrl+");
    reveal_strlit("Alt+");
    reveal_strlit("Shift+");
    reveal_strlit("Win+");
    let ctrl_p = "Ctrl+"@;
    let alt_p = "Alt+"@;
    let shift_p = "Shift+"@;
    let win_p = "Win+"@;
    let k = s.4;
    let l3 = (if s.3 { win_p } else { Seq::empty() }) + k;
    let l2 = (if s.2 { shift_p } else { Seq::empty() }) + l3;
    let l1 = (if s.1 { alt_p } else { Seq::empty() }) + l2;
    let l0 = (if s.0 { ctrl_p } else { Seq::empty() }) + l1;
    assert(shortcut_label(s) =~= l0);
    assert(forall|j: int| 0 <= j < k.len() ==> k[j] != '+') by {
        assert forall|j: int| 0 <= j < k.len() implies k[j] != '+' by {
            if k[j] == '+' {
                assert(k.contains('+'));
            }
        }
    }
    // Win+ layer.
    if s.3 {
        lemma_strip_present(win_p, k);
    } else {
        assert(l3 =~= k);
        lemma_strip_absent(l3, win_p, 3);
    }
    // Shift+ layer.
    if s.2 {
        lemma_strip_present(shift_p, l3);
    } else {
        assert(l2 =~= l3);
        if s.3 {
            lemma_strip_absent(l2, shift_p, 0);
        } else {
            lemma_strip_absent(l2, shift_p, 5);
        }
    }
    // Alt+ layer.
    if s.1 {
        lemma_strip_present(alt_p, l2);
    } else {
        assert(l1 =~= l2);
        if s.2 || s.3 {
            lemma_strip_absent(l1, alt_p, 0);
        } else {
            lemma_strip_absent(l1, alt_p, 3);
        }
    }
    // Ctrl+ layer.
    if s.0 {
        lemma_strip_present(ctrl_p, l1);
    } else {
        assert(l0 =~= l1);
        if s.1 || s.2 || s.3 {
            lemma_strip_absent(l0, ctrl_p, 0);
        } else {
            lemma_strip_absent(l0, ctrl_p, 4);
        }
    }
}

/// Distinct shortcuts get distinct canonical texts (so distinct routing
/// keys): each modifier shows in the text exactly when it is held, whatever
/// the others, when key texts hold no `+`.
pub proof fn lemma_canonical_combo_injective(
    a: (bool, bool, bool, bool, Seq<char>),
    b: (bool, bool, bool, bool, Seq<char>),
)
    requires
        !a.4.contains('+'),
        !b.4.contains('+'),
        canonical_combo(a) == canonical_combo(b),
    ensures
        a == b,
{
    lemma_read_label(a);
    lemma_read_label(b);
}

/// The canonical text of a parsed shortcut.
pub fn format_shortcut(s: &ShortcutParts) -> (r: String)
    ensures
        r@ == canonical_combo(s@),
{
    let mut label = String::new();
    if s.ctrl {
        label.append("Ctrl+");
    }
    if s.alt {
        label.append("Alt+");
    }
    if s.shift {
        label.append("Shift+");
    }
    if s.win {
        label.append("Win+");
    }
    label.append(s.key.as_str());
    assert(label@ =~= shortcut_label(s@));
    label
}

/// The outcome of validating `combo`: its trimmed text when that parses,
/// else the message shown to the user.
pub open spec fn validation(combo: Seq<char>) -> Result<Seq<char>, Seq<char>> {
    let t = trim_seq(combo);
    if t.len() == 0 {
        Err("Hotkey combo is empty"@)
    } else {
        match hotkey_parse(t) {
            Ok(_) => Ok(t),
            Err(e) => Err("Invalid hotkey combo: "@ + e),
        }
    }
}

/// The character view of a result of strings.
pub open spec fn result_view(r: Result<String, String>) -> Result<Seq<char>, Seq<char>> {
    match r {
        Ok(s) => Ok(s@),
        Err(e) => Err(e@),
    }
}

/// Parse and canonicalise a combo before it is stored: the trimmed combo,
/// or a message saying why it is refused.
pub fn validate_combo(combo: &str) -> (r: Result<String, String>)
    ensures
        result_view(r) == validation(combo@),
{
    let trimmed = trim(combo);
    if is_blank(trimmed.as_str()) {
        proof {
            assert(trim_seq(trim_seq(combo@)).len() == 0 ==> trim_seq(combo@).len() == 0) by {
                lemma_trim_idempotent_len(combo@);
            }
        }
        return Err(String::from_str("Hotkey combo is empty"));
    }
    proof {
        lemma_trim_idempotent_len(combo@);
    }
    match parse_shortcut(trimmed.as_str()) {
        Ok(_) => Ok(trimmed),
        Err(e) => {
            let mut msg = String::from_str("Invalid hotkey combo: ");
            msg.append(e.as_str());
            Err(msg)
        },
    }
}

/// A trimmed text is empty exactly when trimming it again gives the empty
/// text.
proof fn lemma_trim_idempotent_len(s: Seq<char>)
    ensures
        (trim_seq(trim_seq(s)).len() == 0) == (trim_seq(s).len() == 0),
{
    let t = trim_seq(s);
    if t.len() > 0 {
        crate::text::lemma_trim_ends_not_ws(s);
        crate::text::lemma_trim_bounds(t, 0, t.len() as int);
        assert(t.subrange(0, t.len() as int) =~= t);
    } else {
        assert(trim_seq(t) =~= t) by {
            crate::text::lemma_trim_bounds(t, 0, 0);
        }
    }
}

/// The digit character for slot `i` (`0 <= i <= 9`).
pub open spec fn digit_char(i: u8) -> char {
    ((48 + i) as u8) as char
}

/// The combo a project activates on: its own combo when that is not blank,
/// else `Ctrl+Alt+Digit<n>` for a hotkey slot `n` in `1..=9`, else none.
pub open spec fn project_combo(p: Project) -> Option<Seq<char>> {
    match p.hotkey_combo {
        Some(c) if trim_seq(c@).len() > 0 => Some(c@),
        _ => match p.hotkey_index {
            Some(i) => if 1 <= i <= 9 {
                Some("Ctrl+Alt+Digit"@ + seq![digit_char(i)])
            } else {
                None
            },
            None => None,
        },
    }
}

/// The activation combo of a project (see `project_combo`).
pub fn effective_combo(p: &Project) -> (r: Option<String>)
    ensures
        opt_view(r) == project_combo(*p),
{
    if let Some(combo) = &p.hotkey_combo {
        if !is_blank(combo.as_str()) {
            return Some(combo.clone());
        }
    }
    match p.hotkey_index {
        Some(idx) => {
            if 1 <= idx && idx <= 9 {
                let d = (48u8 + idx) as char;
                let digits = vec![d];
                let tail = chars_to_string(digits.as_slice());
                let mut combo = String::from_str("Ctrl+Alt+Digit");
                combo.append(tail.as_str());
                assert(digits@ =~= seq![digit_char(idx)]);
                Some(combo)
            } else {
                None
            }
        },
        None => None,
    }
}

/// What a fired shortcut does.
#[derive(Debug, Clone, Copy, PartialEq, Eq)]
pub enum RouterAction {
    ToggleDock,
    ActivateProject(u128),
}

/// The routing table: canonical combo text to action, first binding kept.
#[derive(Debug, Clone)]
pub struct ShortcutRouter {
    pub by_combo: Vec<(String, RouterAction)>,
}

/// The table's entries with their keys as text.
pub open spec fn entries_view(v: Seq<(String, RouterAction)>) -> Seq<(Seq<char>, RouterAction)> {
    v.map_values(|e: (String, RouterAction)| (e.0@, e.1))
}

/// The entry carries the key `key`.
pub open spec fn entry_has_key(key: Seq<char>) -> spec_fn((Seq<char>, RouterAction)) -> bool {
    |e: (Seq<char>, RouterAction)| e.0 == key
}

/// The action bound to `key` in the entries `v`.
pub open spec fn bound_action(v: Seq<(Seq<char>, RouterAction)>, key: Seq<char>) -> Option<
    RouterAction,
> {
    match first_index(v, entry_has_key(key)) {
        Some(i) => Some(v[i].1),
        None => None,
    }
}

/// No key is bound twice.
pub open spec fn distinct_keys(v: Seq<(Seq<char>, RouterAction)>) -> bool {
    forall|i: int, j: int| 0 <= i < j < v.len() ==> v[i].0 != v[j].0
}

/// What to do with a combo when the table is rebuilt.
#[derive(Debug, Clone)]
pub enum RegistrationStep {
    /// The combo does not parse; the message says why.
    Invalid(String),
    /// The combo's canonical text is already bound; the first binding stays.
    Duplicate(String),
    /// Register the shortcut and bind it under this canonical text.
    Register(String),
}

impl ShortcutRouter {
    /// The empty table.
    pub fn new() -> (r: Self)
        ensures
            r.by_combo@.len() == 0,
            distinct_keys(r.entries()),
    {
        ShortcutRouter { by_combo: Vec::new() }
    }

    /// The table's entries with their keys as text.
    pub open spec fn entries(&self) -> Seq<(Seq<char>, RouterAction)> {
        entries_view(self.by_combo@)
    }

    fn find(&self, key: &String) -> (r: Option<usize>)
        ensures
            r matches Some(i) ==> first_index(self.entries(), entry_has_key(key@)) == Some(
                i as int,
            ) && i < self.by_combo@.len(),
            r is None ==> first_index(self.entries(), entry_has_key(key@)) is None,
    {
        let ghost v = self.entries();
        let mut i: usize = 0;
        while i < self.by_combo.len()
            invariant
                v == self.entries(),
                v.len() == self.by_combo@.len(),
                i <= v.len(),
                forall|j: int| 0 <= j < i ==> !(entry_has_key(key@))(#[trigger] v[j]),
            decreases v.len() - i,
        {
            if self.by_combo[i].0 == *key {
                assert(v[i as int] == (self.by_combo@[i as int].0@, self.by_combo@[i as int].1));
                proof {
                    lemma_first_index(v, entry_has_key(key@), i as int);
                }
                return Some(i);
            }
            assert(v[i as int] == (self.by_combo@[i as int].0@, self.by_combo@[i as int].1));
            i = i + 1;
        }
        proof {
            lemma_first_index(v, entry_has_key(key@), v.len() as int);
        }
        None
    }

    /// The action bound to the canonical combo `combo`, if any.
    pub fn action_for(&self, combo: &str) -> (r: Option<RouterAction>)
        ensures
            r == bound_action(self.entries(), combo@),
    {
        let key = String::from_str(combo);
        match self.find(&key) {
            Some(i) => Some(self.by_combo[i].1),
            None => None,
        }
    }

    /// Bind `key` to `action` unless `key` is bound already; answers whether
    /// the binding was added. An existing binding is never replaced.
    pub fn bind(&mut self, key: String, action: RouterAction) -> (added: bool)
        ensures
            added == (bound_action(old(self).entries(), key@) is None),
            added ==> final(self).entries() == old(self).entries().push((key@, action)),
            !added ==> final(self).entries() == old(self).entries(),
            distinct_keys(old(self).entries()) ==> distinct_keys(final(self).entries()),
    {
        match self.find(&key) {
            Some(_) => false,
            None => {
                let ghost before = self.by_combo@;
                let ghost k = key@;
                self.by_combo.push((key, action));
                assert(entries_view(self.by_combo@) =~= entries_view(before).push(
                    (self.by_combo@.last().0@, action),
                ));
                proof {
                    if distinct_keys(entries_view(before)) {
                        lemma_bind_keeps_first(entries_view(before), k, action, k);
                    }
                }
                true
            },
        }
    }

    /// Decide what to do with `combo` while rebuilding the table.
    pub fn plan_registration(&self, combo: &str) -> (r: RegistrationStep)
        ensures
            match hotkey_parse(combo@) {
                Err(e) => r matches RegistrationStep::Invalid(m) && m@ == e,
                Ok(s) => if bound_action(self.entries(), canonical_combo(s)) is Some {
                    r matches RegistrationStep::Duplicate(k) && k@ == canonical_combo(s)
                } else {
                    r matches RegistrationStep::Register(k) && k@ == canonical_combo(s)
                },
            },
    {
        match parse_shortcut(combo) {
            Err(e) => RegistrationStep::Invalid(e),
            Ok(parts) => {
                let key = format_shortcut(&parts);
                match self.find(&key) {
                    Some(_) => RegistrationStep::Duplicate(key),
                    None => RegistrationStep::Register(key),
                }
            },
        }
    }
}

impl Default for ShortcutRouter {
    /// The empty table.
    fn default() -> (r: Self)
        ensures
            r.by_combo@.len() == 0,
            distinct_keys(r.entries()),
    {
        ShortcutRouter::new()
    }
}

/// The combos to bind, in order: the dock toggle first, then each project
/// that has an activation combo.
pub open spec fn project_bindings(s: Seq<Project>) -> Seq<(Seq<char>, RouterAction)>
    decreases s.len(),
{
    if s.len() == 0 {
        Seq::empty()
    } else {
        project_bindings(s.drop_last()) + match project_combo(s.last()) {
            Some(c) => seq![(c, RouterAction::ActivateProject(s.last().id))],
            None => Seq::empty(),
        }
    }
}

/// The bindings the routing table is rebuilt from: the dock toggle on
/// `dock_combo`, then each project on its activation combo.
pub fn hotkey_bindings(dock_combo: String, projects: &Vec<Project>) -> (r: Vec<
    (String, RouterAction),
>)
    ensures
        entries_view(r@) == seq![(dock_combo@, RouterAction::ToggleDock)] + project_bindings(
            projects@,
        ),
{
    let ghost dock = dock_combo@;
    let mut r: Vec<(String, RouterAction)> = Vec::new();
    r.push((dock_combo, RouterAction::ToggleDock));
    let mut i: usize = 0;
    while i < projects.len()
        invariant
            i <= projects@.len(),
            entries_view(r@) == seq![(dock, RouterAction::ToggleDock)] + project_bindings(
                projects@.take(i as int),
            ),
        decreases projects@.len() - i,
    {
        let p = &projects[i];
        let ghost before = r@;
        assert(projects@.take(i + 1).drop_last() =~= projects@.take(i as int));
        assert(projects@.take(i + 1).last() == projects@[i as int]);
        match effective_combo(p) {
            Some(c) => {
                r.push((c, RouterAction::ActivateProject(p.id)));
                assert(entries_view(r@) =~= entries_view(before).push(
                    (r@.last().0@, RouterAction::ActivateProject(p.id)),
                ));
            },
            None => {},
        }
        i = i + 1;
    }
    assert(projects@.take(projects@.len() as int) =~= projects@);
    r
}

/// Binding never breaks the table: keys stay distinct, and a key keeps the
/// action it was first bound to.
pub proof fn lemma_bind_keeps_first(
    v: Seq<(Seq<char>, RouterAction)>,
    key: Seq<char>,
    action: RouterAction,
    other: Seq<char>,
)
    requires
        distinct_keys(v),
        bound_action(v, key) is None,
    ensures
        distinct_keys(v.push((key, action))),
        bound_action(v.push((key, action)), key) == Some(action),
        other != key ==> bound_action(v.push((key, action)), other) == bound_action(v, other),
{
    let w = v.push((key, action));
    crate::window_manager::lemma_first_index_sound(v, entry_has_key(key));
    crate::window_manager::lemma_first_index_sound(v, entry_has_key(other));
    assert forall|j: int| 0 <= j < v.len() implies !(entry_has_key(key))(#[trigger] w[j]) by {
        assert(w[j] == v[j]);
    }
    lemma_first_index(w, entry_has_key(key), v.len() as int);
    if other != key {
        match first_index(v, entry_has_key(other)) {
            Some(i) => {
                assert forall|j: int| 0 <= j < i implies !(entry_has_key(other))(
                    #[trigger] w[j],
                ) by {
                    assert(w[j] == v[j]);
                }
                assert(w[i] == v[i]);
                lemma_first_index(w, entry_has_key(other), i);
            },
            None => {
                assert forall|j: int| 0 <= j < w.len() implies !(entry_has_key(other))(
                    #[trigger] w[j],
                ) by {
                    if j < v.len() {
                        assert(w[j] == v[j]);
                    }
                }
                lemma_first_index(w, entry_has_key(other), w.len() as int);
            },
        }
    }
}

} // verus!
