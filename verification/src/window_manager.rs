//! Windows as the dock sees them, and the rule that finds a stored window
//! reference among the live windows again.
//!
//! The Win32 calls themselves are I/O and live outside this crate; the
//! functions here that stand for them are the portable build's behaviour,
//! where no window system is reached and every operation does nothing.

use vstd::prelude::*;

use crate::project::WindowRef;
use crate::text::{
    chars_to_string, contains_chars, contains_seq, eq_ascii_ci, eq_ignore_ascii_case,
    str_lowercase, to_chars, to_lowercase, trim, trim_seq,
};

verus! {

/// A live top-level window found by enumeration. `hwnd` is only meaningful
/// while the process that enumerated it runs.
#[derive(Debug, Clone)]
pub struct EnumeratedWindow {
    pub hwnd: isize,
    pub title: String,
    pub exe_path: String,
    pub class_name: String,
    pub pid: u32,
    pub minimized: bool,
}

/// The index of the first element of `s` that satisfies `p`.
pub open spec fn first_index<A>(s: Seq<A>, p: spec_fn(A) -> bool) -> Option<int>
    decreases s.len(),
{
    if s.len() == 0 {
        None
    } else if p(s[0]) {
        Some(0)
    } else {
        match first_index(s.drop_first(), p) {
            Some(i) => Some(i + 1),
            None => None,
        }
    }
}

/// `first_index` is the least index that satisfies the predicate.
pub proof fn lemma_first_index<A>(s: Seq<A>, p: spec_fn(A) -> bool, i: int)
    requires
        0 <= i <= s.len(),
        forall|j: int| 0 <= j < i ==> !p(#[trigger] s[j]),
    ensures
        i < s.len() && p(s[i]) ==> first_index(s, p) == Some(i),
        i == s.len() ==> first_index(s, p) is None,
    decreases i,
{
    if i > 0 {
        let t = s.drop_first();
        assert forall|j: int| 0 <= j < i - 1 implies !p(#[trigger] t[j]) by {
            assert(t[j] == s[j + 1]);
            assert(!p(s[j + 1]));
        }
        assert(!p(s[0]));
        lemma_first_index(t, p, i - 1);
        if i < s.len() {
            assert(t[i - 1] == s[i]);
        }
    }
}

/// A result of `first_index` points at an element that satisfies the
/// predicate.
pub proof fn lemma_first_index_sound<A>(s: Seq<A>, p: spec_fn(A) -> bool)
    ensures
        first_index(s, p) matches Some(i) ==> 0 <= i < s.len() && p(s[i]) && forall|j: int|
            0 <= j < i ==> !p(#[trigger] s[j]),
        first_index(s, p) is None ==> forall|j: int| 0 <= j < s.len() ==> !p(#[trigger] s[j]),
    decreases s.len(),
{
    if s.len() > 0 {
        let t = s.drop_first();
        lemma_first_index_sound(t, p);
        assert forall|j: int| 1 <= j < s.len() implies s[j] == t[j - 1] by {}
    }
}

/// The window's executable is `exe`, ignoring ASCII case.
pub open spec fn exe_matches(w: EnumeratedWindow, exe: Seq<char>) -> bool {
    eq_ascii_ci(w.exe_path@, exe) || w.exe_path@ == exe
}

/// The lower-cased, trimmed title pattern of a stored window.
pub open spec fn title_needle(stored: WindowRef) -> Seq<char> {
    str_lowercase(trim_seq(stored.title_pattern@))
}

/// Same executable and exactly the stored title.
pub open spec fn exact_title_match(stored: WindowRef) -> spec_fn(EnumeratedWindow) -> bool {
    |w: EnumeratedWindow| exe_matches(w, stored.exe_path@) && w.title@ == stored.title_snapshot@
}

/// Same executable and the lower-cased title contains the pattern.
pub open spec fn pattern_match(stored: WindowRef) -> spec_fn(EnumeratedWindow) -> bool {
    |w: EnumeratedWindow|
        exe_matches(w, stored.exe_path@) && contains_seq(
            str_lowercase(w.title@),
            title_needle(stored),
        )
}

/// Same executable and the same class name.
pub open spec fn class_match(exe: Seq<char>, class: Seq<char>) -> spec_fn(EnumeratedWindow) -> bool {
    |w: EnumeratedWindow| exe_matches(w, exe) && w.class_name@ == class
}

/// Which live window a stored reference binds to: the first with the same
/// executable and the exact stored title; failing that, the first whose
/// lower-cased title contains the lower-cased pattern (when the pattern is
/// not blank); failing that, the first with the same class name (when the
/// reference has a non-empty class name).
pub open spec fn match_index(stored: WindowRef, cands: Seq<EnumeratedWindow>) -> Option<int> {
    match first_index(cands, exact_title_match(stored)) {
        Some(i) => Some(i),
        None => {
            match if title_needle(stored).len() > 0 {
                first_index(cands, pattern_match(stored))
            } else {
                None
            } {
                Some(i) => Some(i),
                None => match stored.class_name {
                    Some(class) => if class@.len() > 0 {
                        first_index(cands, class_match(stored.exe_path@, class@))
                    } else {
                        None
                    },
                    None => None,
                },
            }
        },
    }
}

/// The window `stored` binds to among `cands`, if any.
pub open spec fn matched_window(stored: WindowRef, cands: Seq<EnumeratedWindow>) -> Option<
    EnumeratedWindow,
> {
    match match_index(stored, cands) {
        Some(i) => Some(cands[i]),
        None => None,
    }
}

/// The window runs the executable `exe` (ignoring ASCII case).
pub open spec fn same_exe(exe: Seq<char>) -> spec_fn(EnumeratedWindow) -> bool {
    |w: EnumeratedWindow| exe_matches(w, exe)
}

/// Looking for the first element that satisfies `p` gives the same element
/// after the elements failing a weaker predicate `q` are taken out.
proof fn lemma_first_index_filter<A>(s: Seq<A>, p: spec_fn(A) -> bool, q: spec_fn(A) -> bool)
    requires
        forall|a: A| #[trigger] p(a) ==> q(a),
    ensures
        match (first_index(s, p), first_index(s.filter(q), p)) {
            (None, None) => true,
            (Some(i), Some(j)) => 0 <= i < s.len() && 0 <= j < s.filter(q).len() && s[i]
                == s.filter(q)[j],
            _ => false,
        },
    decreases s.len(),
{
    if s.len() > 0 {
        let t = s.drop_first();
        assert(s =~= seq![s[0]] + t);
        t.lemma_filter_prepend(s[0], q);
        lemma_first_index_filter(t, p, q);
        lemma_first_index_sound(t, p);
        lemma_first_index_sound(t.filter(q), p);
        let f = s.filter(q);
        if q(s[0]) {
            assert(f =~= seq![s[0]] + t.filter(q));
            assert(f[0] == s[0]);
            assert(f.drop_first() =~= t.filter(q));
            match first_index(t, p) {
                Some(i) => {
                    assert(s[i + 1] == t[i]);
                },
                None => {},
            }
            match first_index(t.filter(q), p) {
                Some(j) => {
                    assert(f[j + 1] == t.filter(q)[j]);
                },
                None => {},
            }
        } else {
            assert(f =~= t.filter(q));
            match first_index(t, p) {
                Some(i) => {
                    assert(s[i + 1] == t[i]);
                },
                None => {},
            }
        }
    }
}

/// Restricting the candidates to those of the stored executable changes
/// nothing.
proof fn lemma_match_within_exe(stored: WindowRef, cands: Seq<EnumeratedWindow>)
    ensures
        matched_window(stored, cands) == matched_window(
            stored,
            cands.filter(same_exe(stored.exe_path@)),
        ),
{
    let q = same_exe(stored.exe_path@);
    lemma_first_index_filter(cands, exact_title_match(stored), q);
    lemma_first_index_filter(cands, pattern_match(stored), q);
    match stored.class_name {
        Some(class) => {
            lemma_first_index_filter(cands, class_match(stored.exe_path@, class@), q);
        },
        None => {},
    }
}

/// Windows of another executable never influence matching: two candidate
/// lists that hold the same windows of the stored executable, in the same
/// order, bind the stored reference to the same window (or to none).
pub proof fn lemma_match_ignores_other_exes(
    stored: WindowRef,
    cands: Seq<EnumeratedWindow>,
    other: Seq<EnumeratedWindow>,
)
    requires
        cands.filter(same_exe(stored.exe_path@)) == other.filter(same_exe(stored.exe_path@)),
    ensures
        matched_window(stored, cands) == matched_window(stored, other),
{
    lemma_match_within_exe(stored, cands);
    lemma_match_within_exe(stored, other);
}

/// The candidate runs the stored executable and has exactly the stored
/// title.
pub open spec fn has_exact_title(stored: WindowRef, c: EnumeratedWindow) -> bool {
    exe_matches(c, stored.exe_path@) && c.title@ == stored.title_snapshot@
}

/// The candidate runs the stored executable and its lower-cased title
/// contains the stored reference's lower-cased, trimmed pattern.
pub open spec fn has_pattern_title(stored: WindowRef, c: EnumeratedWindow) -> bool {
    exe_matches(c, stored.exe_path@) && contains_seq(str_lowercase(c.title@), title_needle(stored))
}

/// Matching tier one: when some candidate of the stored executable has
/// exactly the stored title, the first such candidate is the match, whatever
/// the other candidates' titles and classes.
pub proof fn lemma_match_exact_title_first(stored: WindowRef, cands: Seq<EnumeratedWindow>, k: int)
    requires
        0 <= k < cands.len(),
        has_exact_title(stored, cands[k]),
        forall|j: int| 0 <= j < k ==> !has_exact_title(stored, #[trigger] cands[j]),
    ensures
        match_index(stored, cands) == Some(k),
{
    assert forall|j: int| 0 <= j < k implies !(exact_title_match(stored))(#[trigger] cands[j]) by {
        assert(!has_exact_title(stored, cands[j]));
    }
    lemma_first_index(cands, exact_title_match(stored), k);
}

/// Matching tier two comes before the class tier: when no candidate of the
/// stored executable has the exact title and the pattern is not blank, the
/// first candidate of that executable whose lower-cased title contains the
/// pattern is the match, whatever the class names are.
pub proof fn lemma_match_pattern_before_class(stored: WindowRef, cands: Seq<EnumeratedWindow>, k: int)
    requires
        forall|j: int| 0 <= j < cands.len() ==> !has_exact_title(stored, #[trigger] cands[j]),
        title_needle(stored).len() > 0,
        0 <= k < cands.len(),
        has_pattern_title(stored, cands[k]),
        forall|j: int| 0 <= j < k ==> !has_pattern_title(stored, #[trigger] cands[j]),
    ensures
        match_index(stored, cands) == Some(k),
{
    assert forall|j: int| 0 <= j < cands.len() implies !(exact_title_match(stored))(
        #[trigger] cands[j],
    ) by {
        assert(!has_exact_title(stored, cands[j]));
    }
    lemma_first_index(cands, exact_title_match(stored), cands.len() as int);
    assert forall|j: int| 0 <= j < k implies !(pattern_match(stored))(#[trigger] cands[j]) by {
        assert(!has_pattern_title(stored, cands[j]));
    }
    assert((pattern_match(stored))(cands[k]));
    lemma_first_index(cands, pattern_match(stored), k);
}

/// Matching tier three, the last resort: when no candidate of the stored
/// executable has the exact title or (for a non-blank pattern) a title
/// containing the pattern, the first candidate of that executable with the
/// stored non-empty class name is the match.
pub proof fn lemma_match_class_last(
    stored: WindowRef,
    cands: Seq<EnumeratedWindow>,
    class: String,
    k: int,
)
    requires
        forall|j: int| 0 <= j < cands.len() ==> !has_exact_title(stored, #[trigger] cands[j]),
        title_needle(stored).len() > 0 ==> forall|j: int|
            0 <= j < cands.len() ==> !has_pattern_title(stored, #[trigger] cands[j]),
        stored.class_name == Some(class),
        class@.len() > 0,
        0 <= k < cands.len(),
        exe_matches(cands[k], stored.exe_path@),
        cands[k].class_name@ == class@,
        forall|j: int|
            0 <= j < k ==> !(exe_matches(#[trigger] cands[j], stored.exe_path@)
                && cands[j].class_name@ == class@),
    ensures
        match_index(stored, cands) == Some(k),
{
    assert forall|j: int| 0 <= j < cands.len() implies !(exact_title_match(stored))(
        #[trigger] cands[j],
    ) by {
        assert(!has_exact_title(stored, cands[j]));
    }
    lemma_first_index(cands, exact_title_match(stored), cands.len() as int);
    if title_needle(stored).len() > 0 {
        assert forall|j: int| 0 <= j < cands.len() implies !(pattern_match(stored))(
            #[trigger] cands[j],
        ) by {
            assert(!has_pattern_title(stored, cands[j]));
        }
        lemma_first_index(cands, pattern_match(stored), cands.len() as int);
    }
    assert forall|j: int| 0 <= j < k implies !(class_match(stored.exe_path@, class@))(
        #[trigger] cands[j],
    ) by {}
    lemma_first_index(cands, class_match(stored.exe_path@, class@), k);
}

/// A match always runs the stored executable; with no candidate of that
/// executable there is no match.
pub proof fn lemma_match_same_exe(stored: WindowRef, cands: Seq<EnumeratedWindow>)
    ensures
        match_index(stored, cands) matches Some(i) ==> 0 <= i < cands.len() && exe_matches(
            cands[i],
            stored.exe_path@,
        ),
        (forall|j: int| 0 <= j < cands.len() ==> !exe_matches(#[trigger] cands[j], stored.exe_path@))
            ==> match_index(stored, cands) is None,
{
    lemma_first_index_sound(cands, exact_title_match(stored));
    lemma_first_index_sound(cands, pattern_match(stored));
    match stored.class_name {
        Some(class) => {
            lemma_first_index_sound(cands, class_match(stored.exe_path@, class@));
        },
        None => {},
    }
}

/// Whether two executable paths are equal ignoring ASCII case.
pub fn path_eq_ignore_case(a: &str, b: &str) -> (r: bool)
    ensures
        r == eq_ascii_ci(a@, b@),
{
    eq_ignore_ascii_case(a, b)
}

fn exe_eq(w: &EnumeratedWindow, exe: &String) -> (r: bool)
    ensures
        r == exe_matches(*w, exe@),
{
    path_eq_ignore_case(w.exe_path.as_str(), exe.as_str()) || w.exe_path == *exe
}

/// Find the live window that `stored` refers to (see `match_index`). A
/// blank title pattern skips the pattern step: its lower-cased needle is
/// empty exactly when the trimmed pattern is.
pub fn match_window<'a>(stored: &WindowRef, candidates: &'a [EnumeratedWindow]) -> (r: Option<
    &'a EnumeratedWindow,
>)
    ensures
        r == match match_index(*stored, candidates@) {
            Some(i) => Some(&candidates@[i]),
            None => None,
        },
        (title_needle(*stored).len() == 0) == (trim_seq(stored.title_pattern@).len() == 0),
{
    let n = candidates.len();
    let ghost cands = candidates@;
    // The trimmed, lower-cased pattern.
    let trimmed = trim(stored.title_pattern.as_str());
    let needle_str = to_lowercase(trimmed.as_str());
    let needle = to_chars(needle_str.as_str());
    assert(needle@ == title_needle(*stored));
    // 1. Exact title within the same executable.
    let mut i: usize = 0;
    while i < n
        invariant
            n == cands.len(),
            cands == candidates@,
            (title_needle(*stored).len() == 0) == (trim_seq(stored.title_pattern@).len() == 0),
            i <= n,
            forall|j: int| 0 <= j < i ==> !(exact_title_match(*stored))(#[trigger] cands[j]),
        decreases n - i,
    {
        let w = &candidates[i];
        if exe_eq(w, &stored.exe_path) && w.title == stored.title_snapshot {
            proof {
                lemma_first_index(cands, exact_title_match(*stored), i as int);
            }
            return Some(w);
        }
        i = i + 1;
    }
    proof {
        lemma_first_index(cands, exact_title_match(*stored), n as int);
    }
    // 2. The pattern within the lower-cased title.
    if needle.len() > 0 {
        let mut i: usize = 0;
        while i < n
            invariant
                n == cands.len(),
                cands == candidates@,
                (title_needle(*stored).len() == 0) == (trim_seq(stored.title_pattern@).len() == 0),
                i <= n,
                needle@ == title_needle(*stored),
                needle.len() > 0,
                first_index(cands, exact_title_match(*stored)) is None,
                forall|j: int| 0 <= j < i ==> !(pattern_match(*stored))(#[trigger] cands[j]),
            decreases n - i,
        {
            let w = &candidates[i];
            if exe_eq(w, &stored.exe_path) {
                let lower = to_lowercase(w.title.as_str());
                let hay = to_chars(lower.as_str());
                if contains_chars(&hay, &needle) {
                    assert((pattern_match(*stored))(cands[i as int]));
                    proof {
                        lemma_first_index(cands, pattern_match(*stored), i as int);
                    }
                    return Some(w);
                }
            }
            i = i + 1;
        }
        proof {
            lemma_first_index(cands, pattern_match(*stored), n as int);
        }
    }
    // 3. Class name within the same executable.
    match &stored.class_name {
        Some(class) => {
            if class.as_str().unicode_len() > 0 {
                let mut i: usize = 0;
                while i < n
                    invariant
                        n == cands.len(),
                        cands == candidates@,
                        (title_needle(*stored).len() == 0) == (trim_seq(
                            stored.title_pattern@,
                        ).len() == 0),
                        i <= n,
                        first_index(cands, exact_title_match(*stored)) is None,
                        stored.class_name == Some(*class),
                        class@.len() > 0,
                        title_needle(*stored).len() > 0 ==> first_index(
                            cands,
                            pattern_match(*stored),
                        ) is None,
                        forall|j: int|
                            0 <= j < i ==> !(class_match(stored.exe_path@, class@))(
                                #[trigger] cands[j],
                            ),
                    decreases n - i,
                {
                    let w = &candidates[i];
                    if exe_eq(w, &stored.exe_path) && w.class_name == *class {
                        assert((class_match(stored.exe_path@, class@))(cands[i as int]));
                        proof {
                            lemma_first_index(cands, class_match(stored.exe_path@, class@), i as int);
                        }
                        return Some(w);
                    }
                    i = i + 1;
                }
                proof {
                    lemma_first_index(cands, class_match(stored.exe_path@, class@), n as int);
                }
            }
            None
        },
        None => None,
    }
}

/// A path separator on Windows.
pub open spec fn is_path_sep(c: char) -> bool {
    c == '\\' || c == '/'
}

/// The path part `part` names a file or directory: it is not empty and
/// not `.`.
pub open spec fn is_named_part(part: Seq<char>) -> bool {
    part.len() > 0 && part != seq!['.']
}

/// Scanning `path` part by part (parts end at a separator): the part being
/// read, and the last complete part that names something.
pub open spec fn path_scan(path: Seq<char>) -> (Seq<char>, Seq<char>)
    decreases path.len(),
{
    if path.len() == 0 {
        (Seq::empty(), Seq::empty())
    } else {
        let (cur, last) = path_scan(path.drop_last());
        if is_path_sep(path.last()) {
            (Seq::empty(), if is_named_part(cur) { cur } else { last })
        } else {
            (cur.push(path.last()), last)
        }
    }
}

/// `path` without a leading drive prefix such as `C:`.
pub open spec fn without_drive(path: Seq<char>) -> Seq<char> {
    if path.len() >= 2 && path[1] == ':' && (('a' <= path[0] && path[0] <= 'z') || ('A' <= path[0]
        && path[0] <= 'Z')) {
        path.skip(2)
    } else {
        path
    }
}

/// The final component of a Windows path, as `Path::file_name` gives it:
/// after a drive prefix, parts are separated by `\\` or `/`; empty and `.`
/// parts are skipped; the last part left is the file name, none (the empty
/// text) when there is no part or the last part is `..`.
pub open spec fn file_name(path: Seq<char>) -> Seq<char> {
    let (cur, last) = path_scan(without_drive(path));
    let part = if is_named_part(cur) { cur } else { last };
    if part == seq!['.', '.'] {
        Seq::empty()
    } else {
        part
    }
}

/// The final component of the Windows path `path` (see `file_name`).
pub fn path_file_name(path: &str) -> (r: String)
    ensures
        r@ == file_name(path@),
{
    let v = to_chars(path);
    let mut start: usize = 0;
    if v.len() >= 2 && v[1] == ':' && (('a' <= v[0] && v[0] <= 'z') || ('A' <= v[0] && v[0]
        <= 'Z')) {
        start = 2;
    }
    let ghost p = without_drive(path@);
    assert(p =~= v@.skip(start as int));
    let mut cur: Vec<char> = Vec::new();
    let mut last: Vec<char> = Vec::new();
    let mut i: usize = start;
    while i < v.len()
        invariant
            v@ == path@,
            p == v@.skip(start as int),
            start <= i <= v.len(),
            (cur@, last@) == path_scan(p.take(i - start)),
        decreases v.len() - i,
    {
        let c = v[i];
        let ghost k = (i - start) as int;
        assert(p.take(k + 1).drop_last() =~= p.take(k));
        assert(p.take(k + 1).last() == c);
        if c == '\\' || c == '/' {
            if cur.len() > 0 && !(cur.len() == 1 && cur[0] == '.') {
                assert(is_named_part(cur@)) by {
                    if cur@ == seq!['.'] {
                        assert(cur@.len() == 1 && cur@[0] == '.');
                    }
                }
                last = cur;
            } else {
                assert(!is_named_part(cur@)) by {
                    if cur@.len() > 0 {
                        assert(cur@ =~= seq!['.']);
                    }
                }
            }
            cur = Vec::new();
        } else {
            cur.push(c);
        }
        i = i + 1;
    }
    assert(p.take(p.len() as int) =~= p);
    let named = cur.len() > 0 && !(cur.len() == 1 && cur[0] == '.');
    proof {
        if named {
            if cur@ == seq!['.'] {
                assert(cur@[0] == '.');
            }
        } else if cur@.len() > 0 {
            assert(cur@ =~= seq!['.']);
        }
    }
    let part = if named { cur } else { last };
    if part.len() == 2 && part[0] == '.' && part[1] == '.' {
        assert(part@ =~= seq!['.', '.']);
        String::new()
    } else {
        proof {
            if part@ == seq!['.', '.'] {
                assert(part@[0] == '.' && part@[1] == '.');
            }
        }
        chars_to_string(part.as_slice())
    }
}

/// The file name of the dock's own executable.
pub open spec fn own_exe_name() -> Seq<char> {
    "projecthub.exe"@
}

/// `WS_EX_TOOLWINDOW`, the extended style of tool windows.
pub const TOOL_WINDOW_STYLE: u32 = 0x80;

/// Whether the dock lists a top-level window: it is visible, not a tool
/// window, has a title, belongs to another process than `self_pid`, and
/// its executable is not the dock's own (file name compared ignoring ASCII
/// case).
pub fn lists_window(
    visible: bool,
    ex_style: u32,
    title: &str,
    pid: u32,
    self_pid: Option<u32>,
    exe_path: &str,
) -> (b: bool)
    ensures
        b == (visible && ex_style & TOOL_WINDOW_STYLE == 0 && title@.len() > 0 && Some(pid)
            != self_pid && !eq_ascii_ci(file_name(exe_path@), own_exe_name())),
{
    if !visible || ex_style & TOOL_WINDOW_STYLE != 0 || title.unicode_len() == 0 {
        return false;
    }
    match self_pid {
        Some(me) => {
            if me == pid {
                return false;
            }
        },
        None => {},
    }
    let name = path_file_name(exe_path);
    !eq_ignore_ascii_case(name.as_str(), "projecthub.exe")
}

/// What enumeration reads of one top-level window, before it is filtered.
/// `title`, `class_name` and `exe_path` are empty where nothing could be
/// read.
#[derive(Debug, Clone)]
pub struct RawWindow {
    pub hwnd: isize,
    pub visible: bool,
    pub ex_style: u32,
    pub title: String,
    pub pid: u32,
    pub class_name: String,
    pub exe_path: String,
    pub minimized: bool,
}

/// The raw window passes `lists_window`.
pub open spec fn raw_listed(self_pid: Option<u32>) -> spec_fn(RawWindow) -> bool {
    |w: RawWindow|
        w.visible && w.ex_style & TOOL_WINDOW_STYLE == 0 && w.title@.len() > 0 && Some(w.pid)
            != self_pid && !eq_ascii_ci(file_name(w.exe_path@), own_exe_name())
}

/// The listed window made from a raw one.
pub open spec fn listed_from(w: RawWindow) -> EnumeratedWindow {
    EnumeratedWindow {
        hwnd: w.hwnd,
        title: w.title,
        exe_path: w.exe_path,
        class_name: w.class_name,
        pid: w.pid,
        minimized: w.minimized,
    }
}

/// The windows the dock lists, in enumeration order.
pub open spec fn listed(raw: Seq<RawWindow>, self_pid: Option<u32>) -> Seq<EnumeratedWindow> {
    raw.filter(raw_listed(self_pid)).map_values(|w: RawWindow| listed_from(w))
}

/// Keep the raw windows that the dock lists (see `lists_window`), in order.
pub fn listed_windows(raw: Vec<RawWindow>, self_pid: Option<u32>) -> (r: Vec<EnumeratedWindow>)
    ensures
        r@ == listed(raw@, self_pid),
{
    let ghost rs = raw@;
    let mut out: Vec<EnumeratedWindow> = Vec::new();
    for w in it: raw.into_iter()
        invariant
            it.seq() == rs,
            out@ == listed(rs.take(it.index() as int), self_pid),
    {
        let ghost k = it.index() as int;
        let ghost wg = w;
        proof {
            assert(rs.take(k + 1) =~= rs.take(k).push(wg));
            rs.take(k).lemma_filter_push(wg, raw_listed(self_pid));
        }
        if lists_window(w.visible, w.ex_style, w.title.as_str(), w.pid, self_pid, w.exe_path.as_str()) {
            let ghost before = out@;
            out.push(
                EnumeratedWindow {
                    hwnd: w.hwnd,
                    title: w.title,
                    exe_path: w.exe_path,
                    class_name: w.class_name,
                    pid: w.pid,
                    minimized: w.minimized,
                },
            );
            assert(rs.take(k + 1).filter(raw_listed(self_pid)) =~= rs.take(k).filter(
                raw_listed(self_pid),
            ).push(wg));
            assert(out@ =~= listed(rs.take(k + 1), self_pid));
        } else {
            assert(out@ =~= listed(rs.take(k + 1), self_pid));
        }
    }
    assert(rs.take(rs.len() as int) =~= rs);
    out
}

/// What was learnt at the last stage of bringing a window to the front.
#[derive(Debug, Clone, Copy, PartialEq, Eq, Structural)]
pub enum FocusEvent {
    /// The target handle was looked at.
    Target { valid: bool, minimized: bool },
    /// The first foreground request (after the Alt-key trick) answered
    /// `ok`; `can_retry` says whether a foreground window of another thread
    /// was found to attach to.
    FirstRequest { ok: bool, can_retry: bool },
    /// The request made while attached to the foreground thread answered.
    AttachedRequest { ok: bool },
    /// The last-resort switch was made.
    Switched,
}

/// The next thing to do while bringing a window to the front.
#[derive(Debug, Clone, Copy, PartialEq, Eq, Structural)]
pub enum FocusAction {
    /// Stop, answering `(succeeded, used_fallback)`.
    Finish(bool, bool),
    /// Show the window (restore it when `restore`, else show it without
    /// activating it), fake an Alt keystroke, bring it to the top and ask
    /// for the foreground.
    ShowAndRequest { restore: bool },
    /// Attach to the foreground thread's input, bring the window to the top,
    /// ask for the foreground again, then detach.
    AttachAndRequest,
    /// Switch to the window with `SwitchToThisWindow`.
    SwitchToThis,
}

/// Whether attaching to the foreground thread is worth a try: there is a
/// foreground window, it is not the target, and both windows' threads are
/// known.
pub fn can_attach(
    foreground_valid: bool,
    foreground: isize,
    target: isize,
    foreground_thread: u32,
    target_thread: u32,
) -> (b: bool)
    ensures
        b == (foreground_valid && foreground != target && foreground_thread != 0 && target_thread
            != 0),
{
    foreground_valid && foreground != target && foreground_thread != 0 && target_thread != 0
}

/// The foreground-lock workaround as a sequence of decisions: an invalid
/// handle is given up at once; otherwise the window is shown and the
/// foreground requested after the Alt-key trick; if refused, the request is
/// repeated while attached to the foreground thread (when possible); if
/// that is refused or impossible, `SwitchToThisWindow` is the last resort
/// and the attempt counts as failed. The answer is `(succeeded,
/// used_fallback)`.
pub open spec fn focus_next(event: FocusEvent) -> FocusAction {
    match event {
        FocusEvent::Target { valid, minimized } => if valid {
            FocusAction::ShowAndRequest { restore: minimized }
        } else {
            FocusAction::Finish(false, false)
        },
        FocusEvent::FirstRequest { ok, can_retry } => if ok {
            FocusAction::Finish(true, false)
        } else if can_retry {
            FocusAction::AttachAndRequest
        } else {
            FocusAction::SwitchToThis
        },
        FocusEvent::AttachedRequest { ok } => if ok {
            FocusAction::Finish(true, true)
        } else {
            FocusAction::SwitchToThis
        },
        FocusEvent::Switched => FocusAction::Finish(false, true),
    }
}

/// The next action after `event` (see `focus_next`).
pub fn focus_step(event: FocusEvent) -> (a: FocusAction)
    ensures
        a == focus_next(event),
{
    match event {
        FocusEvent::Target { valid, minimized } => {
            if valid {
                FocusAction::ShowAndRequest { restore: minimized }
            } else {
                FocusAction::Finish(false, false)
            }
        },
        FocusEvent::FirstRequest { ok, can_retry } => {
            if ok {
                FocusAction::Finish(true, false)
            } else if can_retry {
                FocusAction::AttachAndRequest
            } else {
                FocusAction::SwitchToThis
            }
        },
        FocusEvent::AttachedRequest { ok } => {
            if ok {
                FocusAction::Finish(true, true)
            } else {
                FocusAction::SwitchToThis
            }
        },
        FocusEvent::Switched => FocusAction::Finish(false, true),
    }
}

/// The answer documented for an attempt, given what each stage observed:
/// the handle's validity, the first request's answer, whether attaching was
/// possible, and the attached request's answer if one was made.
pub open spec fn focus_outcome(
    valid: bool,
    first_ok: bool,
    retry_possible: bool,
    second_ok: Option<bool>,
) -> (bool, bool) {
    if !valid {
        (false, false)
    } else if first_ok {
        (true, false)
    } else if retry_possible && second_ok == Some(true) {
        (true, true)
    } else {
        (false, true)
    }
}

/// The action after the switch, when `a` asks for it; else `a` itself.
pub open spec fn after_switch(a: FocusAction) -> FocusAction {
    match a {
        FocusAction::SwitchToThis => focus_next(FocusEvent::Switched),
        _ => a,
    }
}

/// Running `focus_next` from the first event until it finishes, with the
/// given observations at each stage.
pub open spec fn focus_run(
    valid: bool,
    minimized: bool,
    first_ok: bool,
    can_retry: bool,
    second_ok: bool,
) -> FocusAction {
    match focus_next(FocusEvent::Target { valid, minimized }) {
        FocusAction::ShowAndRequest { .. } => match focus_next(
            FocusEvent::FirstRequest { ok: first_ok, can_retry },
        ) {
            FocusAction::AttachAndRequest => after_switch(
                focus_next(FocusEvent::AttachedRequest { ok: second_ok }),
            ),
            a => after_switch(a),
        },
        a => a,
    }
}

/// Driving the steps to the end always finishes, with the documented
/// answer: success without fallback exactly when the first request is
/// granted, success with fallback when only the attached request is, and
/// failure otherwise (with a fallback used once the handle was valid).
pub proof fn lemma_focus_steps(
    valid: bool,
    minimized: bool,
    first_ok: bool,
    can_retry: bool,
    second_ok: bool,
)
    ensures
        ({
            let (s, f) = focus_outcome(
                valid,
                first_ok,
                can_retry,
                if valid && !first_ok && can_retry {
                    Some(second_ok)
                } else {
                    None
                },
            );
            focus_run(valid, minimized, first_ok, can_retry, second_ok) == FocusAction::Finish(s, f)
        }),
{
}

/// Enumerate the visible top-level windows other than those of process
/// `self_pid`. The portable build reaches no window system and sees none.
pub fn enumerate_windows(self_pid: Option<u32>) -> (v: Vec<EnumeratedWindow>)
    ensures
        v@.len() == 0,
{
    Vec::new()
}

/// Bring `hwnd` to the foreground; answers `(succeeded, used_fallback)`.
/// The portable build reaches no window system: nothing succeeds.
pub fn focus_window(hwnd: isize) -> (r: (bool, bool))
    ensures
        r == (false, false),
{
    (false, false)
}

/// Show `hwnd` without activating it (nothing to do in the portable build).
pub fn raise_window_noactivate(hwnd: isize) {
}

/// Minimise `hwnd` (nothing to do in the portable build).
pub fn minimize_window(hwnd: isize) {
}

/// Let process `pid` take the foreground (nothing to do in the portable
/// build).
pub fn allow_set_foreground(pid: u32) {
}

/// Restore `hwnd` when it is minimised (nothing to do in the portable
/// build).
pub fn restore_window(hwnd: isize) {
}

} // verus!
