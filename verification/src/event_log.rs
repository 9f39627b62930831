//! The append-only JSON-Lines event log: what an event holds, when the log
//! file is rotated, and how its text is cut into the lines to parse when
//! recent events are read back.
//!
//! Writing and reading the file, and turning an event into JSON and back,
//! happen outside this crate.

use vstd::prelude::*;

use crate::clock::{compact_stamp, new_id, now_micros, utc_compact_stamp};
use crate::project::is_uuid_v4;
use crate::text::{chars_to_string, is_blank, to_chars, trim_seq};
use crate::window_manager::{first_index, lemma_first_index};

verus! {

broadcast use vstd::seq_lib::group_seq_properties;

/// What happened.
#[derive(Debug, Clone)]
pub enum EventKind {
    AppStarted,
    AppShutdown,
    ProjectCreated { name: String },
    ProjectDeleted { name: String },
    ProjectUpdated { name: String },
    ProjectActivated {
        name: String,
        from: Option<u128>,
        duration_in_prev_ms: Option<u64>,
        windows_focused: usize,
        windows_minimized: usize,
    },
    WindowReattached { project_name: String, title: String },
    WindowMissing { project_name: String, title: String },
    WindowAutoRemoved { project_name: String, title: String, missed_ticks: u8 },
    WindowAutoRebound { project_name: String, title: String },
    FocusAttempt {
        project_name: String,
        title: String,
        hwnd: i64,
        succeeded: bool,
        used_fallback: bool,
    },
    HotkeyTriggered { combo: String },
    DockToggled { visible: bool },
}

/// One line of the log.
#[derive(Debug, Clone)]
pub struct Event {
    pub id: u128,
    /// Microseconds since the epoch (UTC).
    pub timestamp: i64,
    pub kind: EventKind,
    pub project_id: Option<u128>,
}

impl Event {
    /// A new event with a fresh id, stamped with the current time.
    pub fn new(kind: EventKind, project_id: Option<u128>) -> (e: Self)
        ensures
            e.kind == kind,
            e.project_id == project_id,
            is_uuid_v4(e.id),
    {
        Event { id: new_id(), timestamp: now_micros(), kind, project_id }
    }
}

/// The size at which the active log file is rotated: 10 MiB.
pub const MAX_BYTES: u64 = 10 * 1024 * 1024;

/// `path` with `.` and `suffix` appended.
pub fn path_with_suffix(path: &str, suffix: &str) -> (r: String)
    ensures
        r@ == path@ + "."@ + suffix@,
{
    let mut s = String::from_str(path);
    s.append(".");
    s.append(suffix);
    s
}

/// Where the active log file goes when it is rotated at instant `now`:
/// nowhere while it is under `MAX_BYTES`, else the same path with the UTC
/// stamp `%Y%m%dT%H%M%SZ` of `now` appended.
pub fn rotation_target(path: &str, len: u64, now: i64) -> (r: Option<String>)
    ensures
        r is Some == (len >= MAX_BYTES),
        r matches Some(p) ==> p@ == path@ + "."@ + utc_compact_stamp(now),
{
    if len >= MAX_BYTES {
        let stamp = compact_stamp(now);
        Some(path_with_suffix(path, stamp.as_str()))
    } else {
        None
    }
}

/// `l` without the `\r` that ends it, if it ends with one.
pub open spec fn strip_cr(l: Seq<char>) -> Seq<char> {
    if l.len() > 0 && l.last() == '\r' {
        l.drop_last()
    } else {
        l
    }
}

/// The character is a newline.
pub open spec fn is_nl() -> spec_fn(char) -> bool {
    |c: char| c == '\n'
}

/// The lines of `s` as `str::lines` yields them: split at `\n`, a `\r`
/// right before the `\n` dropped, and no empty line after a final `\n`.
pub open spec fn text_lines(s: Seq<char>) -> Seq<Seq<char>>
    decreases s.len(),
{
    if s.len() == 0 {
        Seq::empty()
    } else {
        match first_index(s, is_nl()) {
            Some(i) => if 0 <= i < s.len() {
                seq![strip_cr(s.take(i))] + text_lines(s.skip(i + 1))
            } else {
                Seq::empty()
            },
            None => seq![s],
        }
    }
}

/// The line is not blank.
pub open spec fn non_blank() -> spec_fn(Seq<char>) -> bool {
    |l: Seq<char>| trim_seq(l).len() > 0
}

/// The text of each string.
pub open spec fn strings_view(v: Seq<String>) -> Seq<Seq<char>> {
    v.map_values(|s: String| s@)
}

/// The lines of `cur + "\n" + rest`, where `cur` holds no newline.
proof fn lemma_lines_at_newline(cur: Seq<char>, rest: Seq<char>)
    requires
        forall|k: int| 0 <= k < cur.len() ==> cur[k] != '\n',
    ensures
        text_lines(cur + seq!['\n'] + rest) == seq![strip_cr(cur)] + text_lines(rest),
{
    let s = cur + seq!['\n'] + rest;
    assert forall|k: int| 0 <= k < cur.len() implies !(is_nl())(#[trigger] s[k]) by {
        assert(s[k] == cur[k]);
    }
    assert(s[cur.len() as int] == '\n');
    lemma_first_index(s, is_nl(), cur.len() as int);
    assert(s.take(cur.len() as int) =~= cur);
    assert(s.skip(cur.len() as int + 1) =~= rest);
}

/// The lines of `cur`, which holds no newline.
proof fn lemma_lines_no_newline(cur: Seq<char>)
    requires
        forall|k: int| 0 <= k < cur.len() ==> cur[k] != '\n',
    ensures
        text_lines(cur) == if cur.len() == 0 {
            Seq::<Seq<char>>::empty()
        } else {
            seq![cur]
        },
{
    assert forall|k: int| 0 <= k < cur.len() implies !(is_nl())(#[trigger] cur[k]) by {}
    lemma_first_index(cur, is_nl(), cur.len() as int);
}

/// The lines of `raw` (see `text_lines`).
pub fn split_lines(raw: &str) -> (r: Vec<String>)
    ensures
        strings_view(r@) == text_lines(raw@),
{
    let chars = to_chars(raw);
    let ghost s = raw@;
    let mut done: Vec<String> = Vec::new();
    let mut cur: Vec<char> = Vec::new();
    let mut k: usize = 0;
    while k < chars.len()
        invariant
            chars@ == s,
            k <= s.len(),
            forall|m: int| 0 <= m < cur@.len() ==> cur@[m] != '\n',
            strings_view(done@) + text_lines(cur@ + s.skip(k as int)) == text_lines(s),
        decreases s.len() - k,
    {
        let c = chars[k];
        let ghost before = done@;
        assert(s.skip(k as int) =~= seq![c] + s.skip(k + 1));
        if c == '\n' {
            proof {
                lemma_lines_at_newline(cur@, s.skip(k + 1));
                assert(cur@ + s.skip(k as int) =~= cur@ + seq!['\n'] + s.skip(k + 1));
            }
            let ghost whole = cur@;
            if cur.len() > 0 && cur[cur.len() - 1] == '\r' {
                cur.pop();
            }
            assert(cur@ =~= strip_cr(whole));
            let line = chars_to_string(cur.as_slice());
            done.push(line);
            assert(strings_view(done@) =~= strings_view(before).push(strip_cr(whole)));
            cur = Vec::new();
            assert(cur@ + s.skip(k + 1) =~= s.skip(k + 1));
            assert(strings_view(done@) + text_lines(s.skip(k + 1)) =~= strings_view(before) + (
            seq![strip_cr(whole)] + text_lines(s.skip(k + 1))));
        } else {
            assert(cur@ + s.skip(k as int) =~= cur@.push(c) + s.skip(k + 1));
            cur.push(c);
        }
        k = k + 1;
    }
    assert(cur@ + s.skip(k as int) =~= cur@);
    proof {
        lemma_lines_no_newline(cur@);
    }
    if cur.len() > 0 {
        let ghost before = done@;
        let line = chars_to_string(cur.as_slice());
        done.push(line);
        assert(strings_view(done@) =~= strings_view(before) + seq![cur@]);
    } else {
        assert(strings_view(done@) + Seq::<Seq<char>>::empty() =~= strings_view(done@));
    }
    done
}

/// The lines of `raw` that are not blank: the ones worth parsing when the
/// log is read back.
pub fn log_lines(raw: &str) -> (r: Vec<String>)
    ensures
        strings_view(r@) == text_lines(raw@).filter(non_blank()),
{
    let lines = split_lines(raw);
    let ghost all = strings_view(lines@);
    let mut kept: Vec<String> = Vec::new();
    let mut i: usize = 0;
    while i < lines.len()
        invariant
            all == strings_view(lines@),
            i <= lines@.len(),
            strings_view(kept@) == all.take(i as int).filter(non_blank()),
        decreases lines@.len() - i,
    {
        let ghost before = kept@;
        assert(all.take(i + 1) =~= all.take(i as int).push(lines@[i as int]@));
        proof {
            all.take(i as int).lemma_filter_push(lines@[i as int]@, non_blank());
        }
        if !is_blank(lines[i].as_str()) {
            kept.push(lines[i].clone());
            assert(strings_view(kept@) =~= strings_view(before).push(lines@[i as int]@));
        }
        i = i + 1;
    }
    assert(all.take(lines@.len() as int) =~= all);
    kept
}

/// The events that parsed, in file order.
pub open spec fn parsed_events(s: Seq<Option<Event>>) -> Seq<Event>
    decreases s.len(),
{
    if s.len() == 0 {
        Seq::empty()
    } else {
        parsed_events(s.drop_last()) + match s.last() {
            Some(e) => seq![e],
            None => Seq::empty(),
        }
    }
}

/// At most `limit` of the events, most recent first.
pub open spec fn newest(events: Seq<Event>, limit: nat) -> Seq<Event> {
    if limit < events.len() {
        events.reverse().take(limit as int)
    } else {
        events.reverse()
    }
}

/// Up to `limit` of the parsed events, most recent first; lines that did not
/// parse are skipped.
pub fn newest_first(parsed: Vec<Option<Event>>, limit: usize) -> (r: Vec<Event>)
    ensures
        r@ == newest(parsed_events(parsed@), limit as nat),
{
    let ghost p = parsed@;
    let mut events: Vec<Event> = Vec::new();
    for item in it: parsed.into_iter()
        invariant
            it.seq() == p,
            events@ == parsed_events(p.take(it.index() as int)),
    {
        assert(p.take(it.index() + 1).drop_last() =~= p.take(it.index() as int));
        assert(p.take(it.index() + 1).last() == item);
        match item {
            Some(e) => {
                events.push(e);
            },
            None => {},
        }
    }
    assert(p.take(p.len() as int) =~= p);
    let ghost all = events@;
    let n = events.len();
    let mut out: Vec<Event> = Vec::new();
    while events.len() > 0
        invariant
            events@ == all.take(events@.len() as int),
            events@.len() <= n,
            n == all.len(),
            out@.len() + events@.len() == n,
            forall|j: int| 0 <= j < out@.len() ==> out@[j] == all[n - 1 - j],
        decreases events@.len(),
    {
        let e = events.pop().unwrap();
        out.push(e);
    }
    assert(out@ =~= all.reverse());
    out.truncate(limit);
    out
}

} // verus!
