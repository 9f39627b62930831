//! Domain types: a `Project` is a named bundle of external windows that the
//! user treats as one workspace. Each window is remembered by
//! `(exe_path, title_pattern, class_name)` so that the live window can be
//! found again after it is reopened.

use vstd::prelude::*;

use crate::clock::{new_id, now_micros};
use crate::text::{
    chars_to_string, is_whitespace, is_ws, str_uppercase, to_chars, to_uppercase, trim, trim_seq,
};

verus! {

/// Reference to one external top-level window that belongs to a project.
///
/// Window handles change across process restarts, so the descriptive fields
/// are stored and the live handle is found again by matching.
#[derive(Debug, Clone)]
pub struct WindowRef {
    pub id: u128,
    /// Title when the window was attached.
    pub title_snapshot: String,
    /// Substring pattern used for matching; starts as the trimmed title.
    pub title_pattern: String,
    /// Full path of the owning executable.
    pub exe_path: String,
    /// Win32 class name, when known.
    pub class_name: Option<String>,
    /// Chrome profile hint (reserved).
    pub chrome_profile: Option<String>,
    /// Handle last associated with this window (volatile).
    pub last_seen_hwnd: Option<isize>,
    /// Whether the window is currently bound to a live handle (volatile).
    pub live: bool,
    /// Consecutive pruner ticks the window has been missing (volatile).
    pub missed_ticks: u8,
}

/// The value a stored window reference takes for `live` when it is read
/// back from disk.
pub fn default_live() -> (b: bool)
    ensures
        b,
{
    true
}

/// The 128-bit value of a version-4 UUID: version nibble 4, variant `10`.
pub open spec fn is_uuid_v4(id: u128) -> bool {
    id & 0xF000_C000_0000_0000_0000u128 == 0x4000_8000_0000_0000_0000u128
}

/// The fields that `WindowRef::new` gives a reference from its arguments
/// (everything but the fresh id).
pub open spec fn is_new_window_ref(
    w: WindowRef,
    title: Seq<char>,
    exe_path: Seq<char>,
    class_name: Option<Seq<char>>,
    hwnd: isize,
) -> bool {
    &&& w.title_snapshot@ == trim_seq(title)
    &&& w.title_pattern@ == trim_seq(title)
    &&& w.exe_path@ == exe_path
    &&& opt_view(w.class_name) == class_name
    &&& w.chrome_profile is None
    &&& w.last_seen_hwnd == Some(hwnd)
    &&& w.live
    &&& w.missed_ticks == 0
}

/// The character view of an optional string.
pub open spec fn opt_view(o: Option<String>) -> Option<Seq<char>> {
    match o {
        Some(s) => Some(s@),
        None => None,
    }
}

impl WindowRef {
    /// A fresh reference to a live window: the title is trimmed and used both
    /// as snapshot and as pattern.
    pub fn new(title: String, exe_path: String, class_name: Option<String>, hwnd: isize) -> (w:
        Self)
        ensures
            is_new_window_ref(w, title@, exe_path@, opt_view(class_name), hwnd),
            w.exe_path == exe_path,
            w.class_name == class_name,
            is_uuid_v4(w.id),
    {
        let normalized = trim(title.as_str());
        WindowRef {
            id: new_id(),
            title_pattern: normalized.clone(),
            title_snapshot: normalized,
            exe_path,
            class_name,
            chrome_profile: None,
            last_seen_hwnd: Some(hwnd),
            live: true,
            missed_ticks: 0,
        }
    }
}

/// A command that could launch a missing window (reserved).
#[derive(Debug, Clone)]
pub struct LaunchCommand {
    pub program: String,
    pub args: Vec<String>,
    pub working_dir: Option<String>,
}

impl Default for LaunchCommand {
    /// An empty command: no program, no arguments, no working directory.
    fn default() -> (c: Self)
        ensures
            c.program@.len() == 0,
            c.args@.len() == 0,
            c.working_dir is None,
    {
        LaunchCommand { program: String::new(), args: Vec::new(), working_dir: None }
    }
}

/// What remains of a window reference after the pruner removed it, so that
/// the window can be attached again when it reopens.
#[derive(Debug, Clone)]
pub struct DroppedFingerprint {
    pub title_snapshot: String,
    pub title_pattern: String,
    pub exe_path: String,
    pub class_name: Option<String>,
    /// When the reference was removed (microseconds since the epoch).
    pub dropped_at: i64,
}

/// How long a dropped fingerprint is remembered: 24 hours, in microseconds.
pub const DROPPED_FINGERPRINT_TTL: i64 = 86_400_000_000;

/// A user-defined project: a name, a set of windows and launch hints.
#[derive(Debug, Clone)]
pub struct Project {
    pub id: u128,
    pub name: String,
    /// Hex accent colour (e.g. `#6366f1`).
    pub color: String,
    /// One or two characters shown in the icon tile.
    pub initials: String,
    /// Hotkey slot (1-based), or `None` when no slot is bound.
    pub hotkey_index: Option<u8>,
    /// User-defined activation combo; overrides `hotkey_index` when set.
    pub hotkey_combo: Option<String>,
    pub windows: Vec<WindowRef>,
    pub launch_commands: Vec<LaunchCommand>,
    /// `tg://resolve?...` link to a chat (reserved).
    pub tg_chat_uri: Option<String>,
    /// Fingerprints of windows the pruner removed, for re-attachment.
    pub dropped_fingerprints: Vec<DroppedFingerprint>,
    /// Microseconds since the epoch.
    pub created_at: i64,
    pub updated_at: i64,
    pub last_activated_at: Option<i64>,
}

impl Project {
    /// A fresh project with a new id, initials derived from the name, no
    /// hotkey, and both timestamps set to now.
    pub fn new(name: String, color: String, windows: Vec<WindowRef>) -> (p: Self)
        ensures
            p.name == name,
            p.color == color,
            p.initials@ == initials_of(name@),
            p.hotkey_index is None,
            p.hotkey_combo is None,
            p.windows == windows,
            p.launch_commands@.len() == 0,
            p.tg_chat_uri is None,
            p.dropped_fingerprints@.len() == 0,
            p.created_at == p.updated_at,
            p.last_activated_at is None,
            is_uuid_v4(p.id),
    {
        let now = now_micros();
        let initials = derive_initials(name.as_str());
        Project {
            id: new_id(),
            name,
            color,
            initials,
            hotkey_index: None,
            hotkey_combo: None,
            windows,
            launch_commands: Vec::new(),
            tg_chat_uri: None,
            dropped_fingerprints: Vec::new(),
            created_at: now,
            updated_at: now,
            last_activated_at: None,
        }
    }
}

/// Character `i` of `s` begins a whitespace-separated word.
pub open spec fn starts_word(s: Seq<char>, i: int) -> bool {
    &&& !is_ws(s[i])
    &&& (i == 0 || is_ws(s[i - 1]))
}

/// The first character of each whitespace-separated word of `s`, in order
/// (the first characters of `str::split_whitespace`).
pub open spec fn word_initials(s: Seq<char>) -> Seq<char>
    decreases s.len(),
{
    if s.len() == 0 {
        Seq::empty()
    } else {
        word_initials(s.drop_last()) + if starts_word(s, s.len() - 1) {
            seq![s.last()]
        } else {
            Seq::empty()
        }
    }
}

/// The tile text shown for an empty or all-whitespace name.
pub open spec fn no_initials() -> Seq<char> {
    seq!['\u{b7}']
}

/// The first two characters of `s`, or all of it when it is shorter.
pub open spec fn first_two(s: Seq<char>) -> Seq<char> {
    if s.len() <= 2 {
        s
    } else {
        s.take(2)
    }
}

/// The initials of a project name: the first characters of its first two
/// words, upper-cased, of which at most two characters are kept; or a
/// middle dot when the name has no word.
pub open spec fn initials_of(name: Seq<char>) -> Seq<char> {
    let firsts = word_initials(name);
    if firsts.len() == 0 {
        no_initials()
    } else {
        first_two(str_uppercase(first_two(firsts)))
    }
}

proof fn lemma_word_initials_step(s: Seq<char>, i: int)
    requires
        0 <= i < s.len(),
    ensures
        word_initials(s.take(i + 1)) == word_initials(s.take(i)) + if starts_word(s, i) {
            seq![s[i]]
        } else {
            Seq::<char>::empty()
        },
{
    let t = s.take(i + 1);
    assert(t.drop_last() =~= s.take(i));
    assert(t.last() == s[i]);
    if i > 0 {
        assert(t[i - 1] == s[i - 1]);
    }
    assert(starts_word(t, i) == starts_word(s, i));
}

/// The initials shown in a project's icon tile.
pub fn derive_initials(name: &str) -> (r: String)
    ensures
        r@ == initials_of(name@),
        1 <= r@.len() <= 2,
{
    let v = to_chars(name);
    let mut firsts: Vec<char> = Vec::new();
    let mut i: usize = 0;
    while i < v.len()
        invariant
            v@ == name@,
            i <= v.len(),
            firsts@ == word_initials(v@.take(i as int)),
        decreases v.len() - i,
    {
        let c = v[i];
        if !is_whitespace(c) && (i == 0 || is_whitespace(v[i - 1])) {
            firsts.push(c);
        }
        proof {
            lemma_word_initials_step(v@, i as int);
        }
        i = i + 1;
    }
    assert(v@.take(v.len() as int) =~= v@);
    let ghost all_firsts = firsts@;
    firsts.truncate(2);
    assert(firsts@ =~= first_two(all_firsts));
    if firsts.len() == 0 {
        let dot = String::from_str("\u{b7}");
        proof {
            reveal_strlit("\u{b7}");
        }
        assert(dot@ =~= no_initials());
        dot
    } else {
        let joined = chars_to_string(firsts.as_slice());
        let upper = to_uppercase(joined.as_str());
        let mut cs = to_chars(upper.as_str());
        let ghost all_upper = cs@;
        cs.truncate(2);
        assert(cs@ =~= first_two(all_upper));
        chars_to_string(cs.as_slice())
    }
}

/// Accent colour `k` of the default palette (`k < 8`).
pub open spec fn palette_color(k: int) -> Seq<char> {
    if k == 0 {
        "#6366f1"@
    } else if k == 1 {
        "#22c55e"@
    } else if k == 2 {
        "#f97316"@
    } else if k == 3 {
        "#a855f7"@
    } else if k == 4 {
        "#06b6d4"@
    } else if k == 5 {
        "#ef4444"@
    } else if k == 6 {
        "#eab308"@
    } else {
        "#ec4899"@
    }
}

/// Number of colours in the default palette.
pub const PALETTE_LEN: usize = 8;

/// The default palette: indigo, green, orange, violet, cyan, red, amber,
/// pink.
pub fn palette_colors() -> (v: Vec<&'static str>)
    ensures
        v@.len() == PALETTE_LEN,
        forall|k: int| 0 <= k < PALETTE_LEN ==> (#[trigger] v@[k])@ == palette_color(k),
{
    let v = vec![
        "#6366f1",
        "#22c55e",
        "#f97316",
        "#a855f7",
        "#06b6d4",
        "#ef4444",
        "#eab308",
        "#ec4899",
    ];
    v
}

/// The palette colour assigned round-robin to the project at `index`.
pub fn palette_for_index(index: usize) -> (c: String)
    ensures
        c@ == palette_color((index % PALETTE_LEN) as int),
{
    let k = index % PALETTE_LEN;
    let s = if k == 0 {
        "#6366f1"
    } else if k == 1 {
        "#22c55e"
    } else if k == 2 {
        "#f97316"
    } else if k == 3 {
        "#a855f7"
    } else if k == 4 {
        "#06b6d4"
    } else if k == 5 {
        "#ef4444"
    } else if k == 6 {
        "#eab308"
    } else {
        "#ec4899"
    };
    String::from_str(s)
}

/// Colours repeat with the palette's period: the project at `index` and the
/// one at `index + 8` get the same colour, and that colour is entry
/// `index % 8` of `palette_colors`.
pub proof fn lemma_palette_round_robin(index: int)
    requires
        index >= 0,
    ensures
        palette_color((index + PALETTE_LEN) % (PALETTE_LEN as int)) == palette_color(
            index % (PALETTE_LEN as int),
        ),
        0 <= index % (PALETTE_LEN as int) < PALETTE_LEN,
{
}

} // verus!
