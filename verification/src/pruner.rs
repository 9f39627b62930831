//! The background pruner's decisions: keep each project's window list in
//! step with the windows that are actually open.
//!
//! On each tick every stored window reference is matched against the live
//! windows. A match resets its miss count and rebinds its handle; a miss
//! counts up, and once the count reaches `GRACE_PERIOD_TICKS` the reference
//! is removed and its fingerprint kept, so the window is attached again when
//! it reopens. Fingerprints are forgotten after `DROPPED_FINGERPRINT_TTL`.
//!
//! Sleeping between ticks, enumerating windows, writing the store and the
//! log, and telling the dock are done outside this crate.

use vstd::prelude::*;

use crate::project::{opt_view, DroppedFingerprint, Project, WindowRef, DROPPED_FINGERPRINT_TTL};
use crate::text::{contains_chars, contains_seq, str_lowercase, to_chars, to_lowercase, trim, trim_seq};
use crate::window_manager::{
    exe_matches, first_index, lemma_first_index, match_index, match_window, path_eq_ignore_case,
    EnumeratedWindow,
};

verus! {

broadcast use vstd::seq_lib::group_seq_properties;

/// Consecutive missed ticks after which a window reference is removed.
pub const GRACE_PERIOD_TICKS: u8 = 3;

/// `m + 1`, saturating at 255.
pub open spec fn bumped(m: u8) -> u8 {
    if m < 255 {
        (m + 1) as u8
    } else {
        255
    }
}

/// The reference after one tick: bound to the live window it matches, or
/// marked missing with one more miss.
pub open spec fn refreshed(w: WindowRef, live: Seq<EnumeratedWindow>) -> WindowRef {
    match match_index(w, live) {
        Some(i) => WindowRef { missed_ticks: 0, live: true, last_seen_hwnd: Some(live[i].hwnd), ..w },
        None => WindowRef {
            missed_ticks: bumped(w.missed_ticks),
            live: false,
            last_seen_hwnd: None,
            ..w
        },
    }
}

/// The reference stays in its project after this tick.
pub open spec fn survives(w: WindowRef, live: Seq<EnumeratedWindow>) -> bool {
    match_index(w, live) is Some || bumped(w.missed_ticks) < GRACE_PERIOD_TICKS
}

/// The reference stays and its live/missing state visibly changes.
pub open spec fn flips(w: WindowRef, live: Seq<EnumeratedWindow>) -> bool {
    match match_index(w, live) {
        Some(_) => !w.live || w.missed_ticks > 0,
        None => survives(w, live) && w.live,
    }
}

/// The references that stay, refreshed, in order.
pub open spec fn kept_windows(ws: Seq<WindowRef>, live: Seq<EnumeratedWindow>) -> Seq<WindowRef>
    decreases ws.len(),
{
    if ws.len() == 0 {
        Seq::empty()
    } else {
        kept_windows(ws.drop_last(), live) + if survives(ws.last(), live) {
            seq![refreshed(ws.last(), live)]
        } else {
            Seq::empty()
        }
    }
}

/// The references removed this tick, refreshed (with their final miss
/// count), in order.
pub open spec fn dropped_windows(ws: Seq<WindowRef>, live: Seq<EnumeratedWindow>) -> Seq<
    WindowRef,
>
    decreases ws.len(),
{
    if ws.len() == 0 {
        Seq::empty()
    } else {
        dropped_windows(ws.drop_last(), live) + if survives(ws.last(), live) {
            Seq::empty()
        } else {
            seq![refreshed(ws.last(), live)]
        }
    }
}

/// Some reference of `ws` flips.
pub open spec fn any_flip(ws: Seq<WindowRef>, live: Seq<EnumeratedWindow>) -> bool {
    exists|k: int| 0 <= k < ws.len() && flips(#[trigger] ws[k], live)
}

/// The fingerprint left by a removed reference.
pub open spec fn fingerprint_of(w: WindowRef, now: i64) -> DroppedFingerprint {
    DroppedFingerprint {
        title_snapshot: w.title_snapshot,
        title_pattern: w.title_pattern,
        exe_path: w.exe_path,
        class_name: w.class_name,
        dropped_at: now,
    }
}

/// The fingerprints left by removed references.
pub open spec fn fingerprints_of(ws: Seq<WindowRef>, now: i64) -> Seq<DroppedFingerprint> {
    ws.map_values(|w: WindowRef| fingerprint_of(w, now))
}

/// What the log records of a removal: project id, project name, window
/// title, miss count.
pub open spec fn removal_entry(p: Project, w: WindowRef) -> (u128, Seq<char>, Seq<char>, u8) {
    (p.id, p.name@, w.title_snapshot@, w.missed_ticks)
}

/// The removals of project `p`.
pub open spec fn project_removals(p: Project, live: Seq<EnumeratedWindow>) -> Seq<
    (u128, Seq<char>, Seq<char>, u8),
> {
    dropped_windows(p.windows@, live).map_values(|w: WindowRef| removal_entry(p, w))
}

/// The removal entries with their text as characters.
pub open spec fn removals_view(v: Seq<(u128, String, String, u8)>) -> Seq<
    (u128, Seq<char>, Seq<char>, u8),
> {
    v.map_values(|e: (u128, String, String, u8)| (e.0, e.1@, e.2@, e.3))
}

/// `a` and `b` agree on everything but their windows, fingerprints and
/// update time.
pub open spec fn same_settings(a: Project, b: Project) -> bool {
    &&& a.id == b.id
    &&& a.name == b.name
    &&& a.color == b.color
    &&& a.initials == b.initials
    &&& a.hotkey_index == b.hotkey_index
    &&& a.hotkey_combo == b.hotkey_combo
    &&& a.launch_commands == b.launch_commands
    &&& a.tg_chat_uri == b.tg_chat_uri
    &&& a.created_at == b.created_at
    &&& a.last_activated_at == b.last_activated_at
}

/// `new` is `old` after the first pass of a tick at instant `now`: missing
/// references counted, those past the grace period removed and
/// fingerprinted, the update time set when the window list shrank.
pub open spec fn pruned_project(
    old: Project,
    new: Project,
    live: Seq<EnumeratedWindow>,
    now: i64,
) -> bool {
    let kept = kept_windows(old.windows@, live);
    &&& same_settings(old, new)
    &&& new.windows@ == kept
    &&& new.dropped_fingerprints@ == old.dropped_fingerprints@ + fingerprints_of(
        dropped_windows(old.windows@, live),
        now,
    )
    &&& new.updated_at == if kept.len() != old.windows@.len() {
        now
    } else {
        old.updated_at
    }
}

proof fn lemma_pass1_step(ws: Seq<WindowRef>, live: Seq<EnumeratedWindow>, k: int)
    requires
        0 <= k < ws.len(),
    ensures
        kept_windows(ws.take(k + 1), live) == kept_windows(ws.take(k), live) + if survives(
            ws[k],
            live,
        ) {
            seq![refreshed(ws[k], live)]
        } else {
            Seq::<WindowRef>::empty()
        },
        dropped_windows(ws.take(k + 1), live) == dropped_windows(ws.take(k), live) + if survives(
            ws[k],
            live,
        ) {
            Seq::<WindowRef>::empty()
        } else {
            seq![refreshed(ws[k], live)]
        },
{
    assert(ws.take(k + 1).drop_last() =~= ws.take(k));
    assert(ws.take(k + 1).last() == ws[k]);
}

/// The kept and dropped references together are as many as before.
proof fn lemma_kept_dropped_len(ws: Seq<WindowRef>, live: Seq<EnumeratedWindow>)
    ensures
        kept_windows(ws, live).len() + dropped_windows(ws, live).len() == ws.len(),
    decreases ws.len(),
{
    if ws.len() > 0 {
        lemma_kept_dropped_len(ws.drop_last(), live);
    }
}

/// First pass of a tick over one project (see `pruned_project`); appends
/// the removals to `removed` and answers whether a kept reference flipped.
fn prune_project(
    p: &mut Project,
    live: &[EnumeratedWindow],
    now: i64,
    removed: &mut Vec<(u128, String, String, u8)>,
) -> (changed: bool)
    ensures
        pruned_project(*old(p), *final(p), live@, now),
        removals_view(final(removed)@) == removals_view(old(removed)@) + project_removals(
            *old(p),
            live@,
        ),
        changed == any_flip(old(p).windows@, live@),
{
    let ghost p0 = *p;
    let ghost ws = p.windows@;
    let ghost r0 = removals_view(removed@);
    let len_before = p.windows.len();
    let mut drained: Vec<WindowRef> = Vec::new();
    std::mem::swap(&mut drained, &mut p.windows);
    let mut survivors: Vec<WindowRef> = Vec::new();
    let mut changed = false;
    for w in it: drained.into_iter()
        invariant
            it.seq() == ws,
            ws == p0.windows@,
            same_settings(p0, *p),
            p.updated_at == p0.updated_at,
            survivors@ == kept_windows(ws.take(it.index() as int), live@),
            p.dropped_fingerprints@ == p0.dropped_fingerprints@ + fingerprints_of(
                dropped_windows(ws.take(it.index() as int), live@),
                now,
            ),
            removals_view(removed@) == r0 + dropped_windows(
                ws.take(it.index() as int),
                live@,
            ).map_values(|x: WindowRef| removal_entry(p0, x)),
            changed == exists|k: int| 0 <= k < it.index() && flips(#[trigger] ws[k], live@),
    {
        let ghost k = it.index() as int;
        let ghost fp_before = p.dropped_fingerprints@;
        let ghost rm_before = removed@;
        let ghost dropped_before = dropped_windows(ws.take(k), live@);
        proof {
            lemma_pass1_step(ws, live@, k);
        }
        assert(ws[k] == w);
        let mut w = w;
        match match_window(&w, live) {
            Some(found) => {
                let was_dead = !w.live || w.missed_ticks > 0;
                w.missed_ticks = 0;
                w.live = true;
                w.last_seen_hwnd = Some(found.hwnd);
                if was_dead {
                    changed = true;
                }
                assert(w == refreshed(ws[k], live@));
                survivors.push(w);
                assert(dropped_windows(ws.take(k + 1), live@) =~= dropped_before);
            },
            None => {
                let was_live = w.live;
                w.missed_ticks = if w.missed_ticks < 255 {
                    w.missed_ticks + 1
                } else {
                    255
                };
                w.live = false;
                w.last_seen_hwnd = None;
                if w.missed_ticks >= GRACE_PERIOD_TICKS {
                    assert(w == refreshed(ws[k], live@));
                    removed.push((p.id, p.name.clone(), w.title_snapshot.clone(), w.missed_ticks));
                    let ghost gone = w;
                    p.dropped_fingerprints.push(
                        DroppedFingerprint {
                            title_snapshot: w.title_snapshot,
                            title_pattern: w.title_pattern,
                            exe_path: w.exe_path,
                            class_name: w.class_name,
                            dropped_at: now,
                        },
                    );
                    assert(dropped_windows(ws.take(k + 1), live@) =~= dropped_before.push(gone));
                    assert(fingerprints_of(dropped_before.push(gone), now) =~= fingerprints_of(
                        dropped_before,
                        now,
                    ).push(fingerprint_of(gone, now)));
                    assert(p.dropped_fingerprints@ =~= p0.dropped_fingerprints@ + fingerprints_of(
                        dropped_windows(ws.take(k + 1), live@),
                        now,
                    ));
                    assert(removals_view(removed@) =~= removals_view(rm_before).push(
                        removal_entry(p0, gone),
                    ));
                    assert(dropped_before.push(gone).map_values(
                        |x: WindowRef| removal_entry(p0, x),
                    ) =~= dropped_before.map_values(|x: WindowRef| removal_entry(p0, x)).push(
                        removal_entry(p0, gone),
                    ));
                } else {
                    if was_live {
                        changed = true;
                    }
                    assert(w == refreshed(ws[k], live@));
                    survivors.push(w);
                    assert(dropped_windows(ws.take(k + 1), live@) =~= dropped_before);
                }
            },
        }
        assert(changed == exists|j: int| 0 <= j < k + 1 && flips(#[trigger] ws[j], live@)) by {
            if changed && !flips(ws[k], live@) {
                let j = choose|j: int| 0 <= j < k + 1 && flips(#[trigger] ws[j], live@);
                assert(j < k);
            }
        }
    }
    assert(ws.take(ws.len() as int) =~= ws);
    proof {
        lemma_kept_dropped_len(ws, live@);
    }
    p.windows = survivors;
    if p.windows.len() != len_before {
        p.updated_at = now;
    }
    changed
}


/// The fingerprint is younger than `DROPPED_FINGERPRINT_TTL` at `now`.
pub open spec fn is_fresh(now: i64) -> spec_fn(DroppedFingerprint) -> bool {
    |fp: DroppedFingerprint| (now as int) - (fp.dropped_at as int) < (DROPPED_FINGERPRINT_TTL as int)
}

/// The lower-cased, trimmed title pattern of a fingerprint.
pub open spec fn fp_needle(fp: DroppedFingerprint) -> Seq<char> {
    str_lowercase(trim_seq(fp.title_pattern@))
}

/// A live window, not yet bound to any reference, that looks like the
/// window a fingerprint was taken from: same executable (ignoring ASCII
/// case), and either its lower-cased title contains the non-blank pattern
/// or its class name is the fingerprint's.
pub open spec fn reopen_match(fp: DroppedFingerprint, bound: Seq<isize>) -> spec_fn(
    EnumeratedWindow,
) -> bool {
    |c: EnumeratedWindow|
        {
            &&& !bound.contains(c.hwnd)
            &&& exe_matches(c, fp.exe_path@)
            &&& {
                ||| fp_needle(fp).len() > 0 && contains_seq(str_lowercase(c.title@), fp_needle(fp))
                ||| match fp.class_name {
                    Some(class) => c.class_name@ == class@,
                    None => false,
                }
            }
        }
}

/// The live window a fingerprint reattaches to, if any.
pub open spec fn reopen_index(
    fp: DroppedFingerprint,
    live: Seq<EnumeratedWindow>,
    bound: Seq<isize>,
) -> Option<int> {
    first_index(live, reopen_match(fp, bound))
}

/// Going through `fps` in order with the set `bound` of handles in use:
/// the fingerprints that stay, the `(live window, fingerprint)` pairs that
/// reattach (each taking its window's handle), and the handles in use after.
pub open spec fn rebind_result(
    fps: Seq<DroppedFingerprint>,
    live: Seq<EnumeratedWindow>,
    bound: Seq<isize>,
) -> (Seq<DroppedFingerprint>, Seq<(int, DroppedFingerprint)>, Seq<isize>)
    decreases fps.len(),
{
    if fps.len() == 0 {
        (Seq::empty(), Seq::empty(), bound)
    } else {
        match reopen_index(fps[0], live, bound) {
            Some(i) => {
                let r = rebind_result(fps.drop_first(), live, bound.push(live[i].hwnd));
                (r.0, seq![(i, fps[0])] + r.1, r.2)
            },
            None => {
                let r = rebind_result(fps.drop_first(), live, bound);
                (seq![fps[0]] + r.0, r.1, r.2)
            },
        }
    }
}

/// The class name of a live window, none when it is empty.
pub open spec fn class_opt(c: EnumeratedWindow) -> Option<Seq<char>> {
    if c.class_name@.len() == 0 {
        None
    } else {
        Some(c.class_name@)
    }
}

/// `w` is a fresh reference to the live window `c`, keeping the title
/// pattern of the fingerprint `fp` it was reattached from.
pub open spec fn is_reattached_ref(w: WindowRef, c: EnumeratedWindow, fp: DroppedFingerprint) -> bool {
    &&& w.title_snapshot@ == trim_seq(c.title@)
    &&& w.title_pattern@ == fp.title_pattern@
    &&& w.exe_path@ == c.exe_path@
    &&& opt_view(w.class_name) == class_opt(c)
    &&& w.chrome_profile is None
    &&& w.last_seen_hwnd == Some(c.hwnd)
    &&& w.live
    &&& w.missed_ticks == 0
}

/// The outcome of the second pass of a tick for `p` with handles `bound` in
/// use: its fresh fingerprints run through `rebind_result`.
pub open spec fn project_rebind(
    p: Project,
    live: Seq<EnumeratedWindow>,
    bound: Seq<isize>,
    now: i64,
) -> (Seq<DroppedFingerprint>, Seq<(int, DroppedFingerprint)>, Seq<isize>) {
    rebind_result(p.dropped_fingerprints@.filter(is_fresh(now)), live, bound)
}

/// `new` is `old` after the second pass of a tick: stale fingerprints
/// forgotten, the others reattached to free matching live windows where
/// possible (appended to the window list), the update time set when the
/// fingerprint list changed.
pub open spec fn rebound_project(
    old: Project,
    new: Project,
    live: Seq<EnumeratedWindow>,
    bound: Seq<isize>,
    now: i64,
) -> bool {
    let r = project_rebind(old, live, bound, now);
    let n = old.windows@.len();
    &&& same_settings(old, new)
    &&& new.windows@.len() == n + r.1.len()
    &&& new.windows@.take(n as int) == old.windows@
    &&& forall|j: int|
        0 <= j < r.1.len() ==> is_reattached_ref(
            #[trigger] new.windows@[n + j],
            live[r.1[j].0],
            r.1[j].1,
        )
    &&& new.dropped_fingerprints@ == r.0
    &&& new.updated_at == if r.0.len() != old.dropped_fingerprints@.len() {
        now
    } else {
        old.updated_at
    }
}

/// The second pass forgets at least one fingerprint of `p` as stale.
pub open spec fn forgets_stale(p: Project, now: i64) -> bool {
    p.dropped_fingerprints@.filter(is_fresh(now)).len() < p.dropped_fingerprints@.len()
}

/// The second pass forgets a stale fingerprint of some project of `ps`.
pub open spec fn any_forgets_stale(ps: Seq<Project>, now: i64) -> bool {
    exists|k: int| 0 <= k < ps.len() && forgets_stale(#[trigger] ps[k], now)
}

/// What the log records of a reattachment: project id, project name, title
/// of the live window.
pub open spec fn rebind_entries(
    p: Project,
    live: Seq<EnumeratedWindow>,
    pairs: Seq<(int, DroppedFingerprint)>,
) -> Seq<(u128, Seq<char>, Seq<char>)> {
    pairs.map_values(|e: (int, DroppedFingerprint)| (p.id, p.name@, live[e.0].title@))
}

/// The reattachment entries with their text as characters.
pub open spec fn rebinds_view(v: Seq<(u128, String, String)>) -> Seq<(u128, Seq<char>, Seq<char>)> {
    v.map_values(|e: (u128, String, String)| (e.0, e.1@, e.2@))
}

/// The live window `live[i]` for the fingerprint `fp`, among the windows
/// whose handles are not in `bound`.
fn find_match(fp: &DroppedFingerprint, live: &[EnumeratedWindow], bound: &Vec<isize>) -> (r:
    Option<usize>)
    ensures
        r matches Some(i) ==> reopen_index(*fp, live@, bound@) == Some(i as int) && i
            < live@.len(),
        r is None ==> reopen_index(*fp, live@, bound@) is None,
{
    let trimmed = trim(fp.title_pattern.as_str());
    let needle_str = to_lowercase(trimmed.as_str());
    let needle = to_chars(needle_str.as_str());
    let ghost pred = reopen_match(*fp, bound@);
    let mut i: usize = 0;
    while i < live.len()
        invariant
            i <= live@.len(),
            needle@ == fp_needle(*fp),
            pred == reopen_match(*fp, bound@),
            forall|j: int| 0 <= j < i ==> !pred(#[trigger] live@[j]),
        decreases live@.len() - i,
    {
        let w = &live[i];
        if !contains_hwnd(bound, w.hwnd) && (path_eq_ignore_case(
            w.exe_path.as_str(),
            fp.exe_path.as_str(),
        ) || w.exe_path == fp.exe_path) {
            let mut hit = false;
            if needle.len() > 0 {
                let lower = to_lowercase(w.title.as_str());
                let hay = to_chars(lower.as_str());
                hit = contains_chars(&hay, &needle);
            }
            if !hit {
                hit = match &fp.class_name {
                    Some(class) => w.class_name == *class,
                    None => false,
                };
            }
            if hit {
                assert(pred(live@[i as int]));
                proof {
                    lemma_first_index(live@, pred, i as int);
                }
                return Some(i);
            }
        }
        i = i + 1;
    }
    proof {
        lemma_first_index(live@, pred, live@.len() as int);
    }
    None
}

/// Whether `h` is among `bound`.
fn contains_hwnd(bound: &Vec<isize>, h: isize) -> (r: bool)
    ensures
        r == bound@.contains(h),
{
    let mut i: usize = 0;
    while i < bound.len()
        invariant
            i <= bound@.len(),
            forall|j: int| 0 <= j < i ==> bound@[j] != h,
        decreases bound@.len() - i,
    {
        if bound[i] == h {
            return true;
        }
        i = i + 1;
    }
    false
}

proof fn lemma_rebind_unfold(
    fps: Seq<DroppedFingerprint>,
    live: Seq<EnumeratedWindow>,
    bound: Seq<isize>,
    k: int,
)
    requires
        0 <= k < fps.len(),
    ensures
        fps.skip(k)[0] == fps[k],
        fps.skip(k).drop_first() == fps.skip(k + 1),
{
    assert(fps.skip(k).drop_first() =~= fps.skip(k + 1));
}

/// Second pass of a tick over one project (see `rebound_project`): handles
/// taken are added to `bound`, reattachments are appended to `rebound`;
/// answers whether any window was reattached and whether a stale
/// fingerprint was forgotten.
fn rebind_project(
    p: &mut Project,
    live: &[EnumeratedWindow],
    bound: &mut Vec<isize>,
    now: i64,
    rebound: &mut Vec<(u128, String, String)>,
) -> (r: (bool, bool))
    ensures
        rebound_project(*old(p), *final(p), live@, old(bound)@, now),
        final(bound)@ == project_rebind(*old(p), live@, old(bound)@, now).2,
        rebinds_view(final(rebound)@) == rebinds_view(old(rebound)@) + rebind_entries(
            *old(p),
            live@,
            project_rebind(*old(p), live@, old(bound)@, now).1,
        ),
        r.0 == (project_rebind(*old(p), live@, old(bound)@, now).1.len() > 0),
        r.1 == forgets_stale(*old(p), now),
{
    let ghost p0 = *p;
    let ghost b0 = bound@;
    let ghost rb0 = rebinds_view(rebound@);
    let fp_len_before = p.dropped_fingerprints.len();
    let mut all: Vec<DroppedFingerprint> = Vec::new();
    std::mem::swap(&mut all, &mut p.dropped_fingerprints);
    let ghost fps = all@;
    // Forget fingerprints older than the TTL.
    let mut fresh: Vec<DroppedFingerprint> = Vec::new();
    for fp in it: all.into_iter()
        invariant
            it.seq() == fps,
            fresh@ == fps.take(it.index() as int).filter(is_fresh(now)),
    {
        proof {
            assert(fps.take(it.index() + 1) =~= fps.take(it.index() as int).push(fp));
            fps.take(it.index() as int).lemma_filter_push(fp, is_fresh(now));
        }
        if (now as i128) - (fp.dropped_at as i128) < (DROPPED_FINGERPRINT_TTL as i128) {
            fresh.push(fp);
        }
    }
    assert(fps.take(fps.len() as int) =~= fps);
    let forgot = fresh.len() < fp_len_before;
    let ghost fr = fresh@;
    let ghost whole = rebind_result(fr, live@, b0);
    let ghost n = p0.windows@.len();
    // Reattach fingerprints whose window is open again.
    let mut kept: Vec<DroppedFingerprint> = Vec::new();
    let ghost mut attached: Seq<(int, DroppedFingerprint)> = Seq::empty();
    let mut changed = false;
    for fp in it: fresh.into_iter()
        invariant
            it.seq() == fr,
            fr == p0.dropped_fingerprints@.filter(is_fresh(now)),
            whole == rebind_result(fr, live@, b0),
            n == p0.windows@.len(),
            same_settings(p0, *p),
            p.updated_at == p0.updated_at,
            p.dropped_fingerprints@.len() == 0,
            ({
                let r = rebind_result(fr.skip(it.index() as int), live@, bound@);
                &&& kept@ + r.0 == whole.0
                &&& attached + r.1 == whole.1
                &&& r.2 == whole.2
            }),
            p.windows@.len() == n + attached.len(),
            p.windows@.take(n as int) == p0.windows@,
            forall|j: int|
                0 <= j < attached.len() ==> is_reattached_ref(
                    #[trigger] p.windows@[n + j],
                    live@[attached[j].0],
                    attached[j].1,
                ),
            rebinds_view(rebound@) == rb0 + rebind_entries(p0, live@, attached),
            changed == (attached.len() > 0),
    {
        let ghost k = it.index() as int;
        proof {
            lemma_rebind_unfold(fr, live@, bound@, k);
        }
        let ghost rest = fr.skip(k);
        assert(rest[0] == fp);
        match find_match(&fp, live, bound) {
            Some(i) => {
                let found = &live[i];
                let class = if found.class_name.as_str().is_empty() {
                    None
                } else {
                    Some(found.class_name.clone())
                };
                let ghost fp_ghost = fp;
                let mut w = WindowRef::new(found.title.clone(), found.exe_path.clone(), class, found.hwnd);
                w.title_pattern = fp.title_pattern;
                let ghost before_windows = p.windows@;
                p.windows.push(w);
                let ghost before_bound = bound@;
                bound.push(found.hwnd);
                let ghost before_rb = rebound@;
                rebound.push((p.id, p.name.clone(), found.title.clone()));
                proof {
                    let r = rebind_result(rest, live@, before_bound);
                    let r2 = rebind_result(fr.skip(k + 1), live@, bound@);
                    assert(r == (r2.0, seq![(i as int, fp_ghost)] + r2.1, r2.2));
                    assert(attached.push((i as int, fp_ghost)) + r2.1 =~= attached + r.1);
                    attached = attached.push((i as int, fp_ghost));
                    assert(p.windows@.take(n as int) =~= before_windows.take(n as int));
                    assert forall|j: int| 0 <= j < attached.len() implies is_reattached_ref(
                        #[trigger] p.windows@[n + j],
                        live@[attached[j].0],
                        attached[j].1,
                    ) by {
                        if j < attached.len() - 1 {
                            assert(p.windows@[n + j] == before_windows[n + j]);
                        }
                    }
                    assert(rebinds_view(rebound@) =~= rebinds_view(before_rb).push(
                        (p0.id, p0.name@, live@[i as int].title@),
                    ));
                    assert(rebind_entries(p0, live@, attached) =~= rebind_entries(
                        p0,
                        live@,
                        attached.drop_last(),
                    ).push((p0.id, p0.name@, live@[i as int].title@)));
                    assert(attached.drop_last() =~= attached.subrange(0, attached.len() - 1));
                }
                changed = true;
            },
            None => {
                proof {
                    let r = rebind_result(rest, live@, bound@);
                    let r2 = rebind_result(fr.skip(k + 1), live@, bound@);
                    assert(r == (seq![fp] + r2.0, r2.1, r2.2));
                    assert(kept@.push(fp) + r2.0 =~= kept@ + r.0);
                }
                kept.push(fp);
            },
        }
    }
    assert(fr.skip(fr.len() as int) =~= Seq::<DroppedFingerprint>::empty());
    assert(kept@ + Seq::<DroppedFingerprint>::empty() =~= kept@);
    assert(attached + Seq::<(int, DroppedFingerprint)>::empty() =~= attached);
    p.dropped_fingerprints = kept;
    if p.dropped_fingerprints.len() != fp_len_before {
        p.updated_at = now;
    }
    (changed, forgot)
}


/// The handles bound by the references `ws`, in order.
pub open spec fn window_hwnds(ws: Seq<WindowRef>) -> Seq<isize>
    decreases ws.len(),
{
    if ws.len() == 0 {
        Seq::empty()
    } else {
        window_hwnds(ws.drop_last()) + match ws.last().last_seen_hwnd {
            Some(h) => seq![h],
            None => Seq::empty(),
        }
    }
}

/// The handles bound by any reference of any project, in order.
pub open spec fn bound_hwnds(ps: Seq<Project>) -> Seq<isize>
    decreases ps.len(),
{
    if ps.len() == 0 {
        Seq::empty()
    } else {
        bound_hwnds(ps.drop_last()) + window_hwnds(ps.last().windows@)
    }
}

/// The removals of the first `k` projects, in order.
pub open spec fn removals_upto(ps: Seq<Project>, live: Seq<EnumeratedWindow>, k: int) -> Seq<
    (u128, Seq<char>, Seq<char>, u8),
>
    decreases k,
{
    if k <= 0 {
        Seq::empty()
    } else {
        removals_upto(ps, live, k - 1) + project_removals(ps[k - 1], live)
    }
}

/// `new` is `old` after the first pass of a tick, project by project.
pub open spec fn pruned_all(
    old: Seq<Project>,
    new: Seq<Project>,
    live: Seq<EnumeratedWindow>,
    now: i64,
) -> bool {
    &&& old.len() == new.len()
    &&& forall|k: int| 0 <= k < old.len() ==> pruned_project(old[k], #[trigger] new[k], live, now)
}

/// Some kept reference of some project flips in the first pass.
pub open spec fn any_project_flip(ps: Seq<Project>, live: Seq<EnumeratedWindow>) -> bool {
    exists|k: int| 0 <= k < ps.len() && any_flip((#[trigger] ps[k]).windows@, live)
}

/// The handles in use when the second pass reaches project `k`: all bound
/// handles, plus those taken by reattachments in the projects before `k`.
pub open spec fn bound_before(
    ps: Seq<Project>,
    live: Seq<EnumeratedWindow>,
    now: i64,
    k: int,
) -> Seq<isize>
    decreases k,
{
    if k <= 0 {
        bound_hwnds(ps)
    } else {
        project_rebind(ps[k - 1], live, bound_before(ps, live, now, k - 1), now).2
    }
}

/// `new` is `old` after the second pass of a tick, project by project.
pub open spec fn rebound_all(
    old: Seq<Project>,
    new: Seq<Project>,
    live: Seq<EnumeratedWindow>,
    now: i64,
) -> bool {
    &&& old.len() == new.len()
    &&& forall|k: int|
        0 <= k < old.len() ==> rebound_project(
            old[k],
            #[trigger] new[k],
            live,
            bound_before(old, live, now, k),
            now,
        )
}

/// The reattachments of the first `k` projects, in order.
pub open spec fn rebinds_upto(
    ps: Seq<Project>,
    live: Seq<EnumeratedWindow>,
    now: i64,
    k: int,
) -> Seq<(u128, Seq<char>, Seq<char>)>
    decreases k,
{
    if k <= 0 {
        Seq::empty()
    } else {
        rebinds_upto(ps, live, now, k - 1) + rebind_entries(
            ps[k - 1],
            live,
            project_rebind(ps[k - 1], live, bound_before(ps, live, now, k - 1), now).1,
        )
    }
}

/// What changed in one tick: references removed and reattached (for the
/// log), and whether any reference's live state changed (for the dock).
#[derive(Debug)]
pub struct TickOutcome {
    /// `(project id, project name, window title, missed ticks)`.
    pub removed: Vec<(u128, String, String, u8)>,
    /// `(project id, project name, window title)`.
    pub rebound: Vec<(u128, String, String)>,
    pub any_live_state_changed: bool,
}

/// First pass of a tick over all projects: count misses, remove references
/// past the grace period. Answers the removals and whether a kept reference
/// flipped.
pub fn prune_missing(projects: &mut Vec<Project>, live: &[EnumeratedWindow], now: i64) -> (r: (
    Vec<(u128, String, String, u8)>,
    bool,
))
    ensures
        pruned_all(old(projects)@, final(projects)@, live@, now),
        removals_view(r.0@) == removals_upto(old(projects)@, live@, old(projects)@.len() as int),
        r.1 == any_project_flip(old(projects)@, live@),
{
    let ghost ps = projects@;
    let mut all: Vec<Project> = Vec::new();
    std::mem::swap(&mut all, projects);
    let mut removed: Vec<(u128, String, String, u8)> = Vec::new();
    let mut changed = false;
    for p in it: all.into_iter()
        invariant
            it.seq() == ps,
            projects@.len() == it.index(),
            forall|j: int|
                0 <= j < it.index() ==> pruned_project(ps[j], #[trigger] projects@[j], live@, now),
            removals_view(removed@) == removals_upto(ps, live@, it.index() as int),
            changed == exists|j: int| 0 <= j < it.index() && any_flip((#[trigger] ps[j]).windows@, live@),
    {
        let ghost k = it.index() as int;
        let mut p = p;
        let flipped = prune_project(&mut p, live, now, &mut removed);
        if flipped {
            changed = true;
        }
        projects.push(p);
        assert(changed == exists|j: int| 0 <= j < k + 1 && any_flip((#[trigger] ps[j]).windows@, live@)) by {
            if changed && !any_flip(ps[k].windows@, live@) {
                let j = choose|j: int| 0 <= j < k + 1 && any_flip((#[trigger] ps[j]).windows@, live@);
                assert(j < k);
            }
        }
    }
    (removed, changed)
}

/// The handles bound by any reference of any project.
fn collect_bound(projects: &Vec<Project>) -> (r: Vec<isize>)
    ensures
        r@ == bound_hwnds(projects@),
{
    let mut r: Vec<isize> = Vec::new();
    let mut k: usize = 0;
    while k < projects.len()
        invariant
            k <= projects@.len(),
            r@ == bound_hwnds(projects@.take(k as int)),
        decreases projects@.len() - k,
    {
        let ws = &projects[k].windows;
        let ghost base = r@;
        let mut j: usize = 0;
        while j < ws.len()
            invariant
                j <= ws@.len(),
                r@ == base + window_hwnds(ws@.take(j as int)),
            decreases ws@.len() - j,
        {
            assert(ws@.take(j + 1).drop_last() =~= ws@.take(j as int));
            assert(ws@.take(j + 1).last() == ws@[j as int]);
            let ghost before = r@;
            match ws[j].last_seen_hwnd {
                Some(h) => {
                    r.push(h);
                    assert(r@ =~= before + seq![h]);
                },
                None => {
                    assert(r@ =~= before + Seq::<isize>::empty());
                },
            }
            assert(r@ =~= base + window_hwnds(ws@.take(j + 1)));
            j = j + 1;
        }
        assert(ws@.take(ws@.len() as int) =~= ws@);
        assert(projects@.take(k + 1).drop_last() =~= projects@.take(k as int));
        assert(projects@.take(k + 1).last() == projects@[k as int]);
        k = k + 1;
    }
    assert(projects@.take(projects@.len() as int) =~= projects@);
    r
}

/// Second pass of a tick over all projects: forget stale fingerprints and
/// reattach the others to free matching live windows. Answers the
/// reattachments, whether there were any, and whether a stale fingerprint
/// was forgotten.
pub fn rebind_dropped(projects: &mut Vec<Project>, live: &[EnumeratedWindow], now: i64) -> (r: (
    Vec<(u128, String, String)>,
    bool,
    bool,
))
    ensures
        rebound_all(old(projects)@, final(projects)@, live@, now),
        rebinds_view(r.0@) == rebinds_upto(old(projects)@, live@, now, old(projects)@.len() as int),
        r.1 == (r.0@.len() > 0),
        r.2 == any_forgets_stale(old(projects)@, now),
{
    let ghost ps = projects@;
    let mut bound = collect_bound(projects);
    let mut all: Vec<Project> = Vec::new();
    std::mem::swap(&mut all, projects);
    let mut rebound: Vec<(u128, String, String)> = Vec::new();
    let mut forgot = false;
    for p in it: all.into_iter()
        invariant
            it.seq() == ps,
            projects@.len() == it.index(),
            bound@ == bound_before(ps, live@, now, it.index() as int),
            forall|j: int|
                0 <= j < it.index() ==> rebound_project(
                    ps[j],
                    #[trigger] projects@[j],
                    live@,
                    bound_before(ps, live@, now, j),
                    now,
                ),
            rebinds_view(rebound@) == rebinds_upto(ps, live@, now, it.index() as int),
            forgot == exists|j: int| 0 <= j < it.index() && forgets_stale(#[trigger] ps[j], now),
    {
        let ghost k = it.index() as int;
        let mut p = p;
        let (_, forgot_here) = rebind_project(&mut p, live, &mut bound, now, &mut rebound);
        if forgot_here {
            forgot = true;
        }
        projects.push(p);
        assert(forgot == exists|j: int| 0 <= j < k + 1 && forgets_stale(#[trigger] ps[j], now)) by {
            if forgot && !forgets_stale(ps[k], now) {
                let j = choose|j: int| 0 <= j < k + 1 && forgets_stale(#[trigger] ps[j], now);
                assert(j < k);
            }
        }
    }
    let any = rebound.len() > 0;
    (rebound, any, forgot)
}

/// One tick of the pruner over `projects`, given the live windows and the
/// current instant: first pass, then second pass. Answers what changed and
/// whether the store must be written: a reference was removed or
/// reattached, or a stale fingerprint was forgotten. Changes of a
/// reference's live state, miss count or handle alone do not ask for a
/// write.
pub fn prune_tick(projects: &mut Vec<Project>, live: &[EnumeratedWindow], now: i64) -> (r: (
    TickOutcome,
    bool,
))
    ensures
        exists|mid: Seq<Project>|
            {
                &&& #[trigger] pruned_all(old(projects)@, mid, live@, now)
                &&& rebound_all(mid, final(projects)@, live@, now)
                &&& removals_view(r.0.removed@) == removals_upto(
                    old(projects)@,
                    live@,
                    old(projects)@.len() as int,
                )
                &&& rebinds_view(r.0.rebound@) == rebinds_upto(mid, live@, now, mid.len() as int)
                &&& r.0.any_live_state_changed == (any_project_flip(old(projects)@, live@)
                    || r.0.rebound@.len() > 0)
                &&& r.1 == (r.0.removed@.len() > 0 || r.0.rebound@.len() > 0
                    || any_forgets_stale(mid, now))
            },
{
    let (removed, flipped) = prune_missing(projects, live, now);
    let ghost mid = projects@;
    let (rebound, any_rebound, forgot) = rebind_dropped(projects, live, now);
    let dirty = removed.len() > 0 || rebound.len() > 0 || forgot;
    let outcome = TickOutcome {
        removed,
        rebound,
        any_live_state_changed: flipped || any_rebound,
    };
    assert(pruned_all(old(projects)@, mid, live@, now));
    (outcome, dirty)
}


proof fn lemma_kept_under_grace(ws: Seq<WindowRef>, live: Seq<EnumeratedWindow>)
    ensures
        forall|i: int|
            0 <= i < kept_windows(ws, live).len() ==> (#[trigger] kept_windows(ws, live)[i]).missed_ticks
                < GRACE_PERIOD_TICKS,
    decreases ws.len(),
{
    if ws.len() > 0 {
        lemma_kept_under_grace(ws.drop_last(), live);
        let a = kept_windows(ws.drop_last(), live);
        assert forall|i: int| 0 <= i < kept_windows(ws, live).len() implies (
        #[trigger] kept_windows(ws, live)[i]).missed_ticks < GRACE_PERIOD_TICKS by {
            if i < a.len() {
                assert(kept_windows(ws, live)[i] == a[i]);
            }
        }
    }
}

/// A reference is removed only once no live window matches it and its miss
/// count has reached the grace period; a reference that matches a live
/// window is never removed.
pub proof fn lemma_removed_only_past_grace(ws: Seq<WindowRef>, live: Seq<EnumeratedWindow>)
    ensures
        forall|i: int|
            0 <= i < dropped_windows(ws, live).len() ==> {
                let d = #[trigger] dropped_windows(ws, live)[i];
                &&& d.missed_ticks >= GRACE_PERIOD_TICKS
                &&& !d.live
                &&& d.last_seen_hwnd is None
            },
        forall|k: int| 0 <= k < ws.len() && match_index(#[trigger] ws[k], live) is Some ==> survives(ws[k], live),
    decreases ws.len(),
{
    if ws.len() > 0 {
        lemma_removed_only_past_grace(ws.drop_last(), live);
        let a = dropped_windows(ws.drop_last(), live);
        assert forall|i: int| 0 <= i < dropped_windows(ws, live).len() implies {
            let d = #[trigger] dropped_windows(ws, live)[i];
            &&& d.missed_ticks >= GRACE_PERIOD_TICKS
            &&& !d.live
            &&& d.last_seen_hwnd is None
        } by {
            if i < a.len() {
                assert(dropped_windows(ws, live)[i] == a[i]);
            }
        }
    }
}

/// After a tick, every reference of every project has missed fewer than
/// `GRACE_PERIOD_TICKS` consecutive ticks.
pub proof fn lemma_tick_keeps_misses_under_grace(
    old: Seq<Project>,
    mid: Seq<Project>,
    new: Seq<Project>,
    live: Seq<EnumeratedWindow>,
    now: i64,
)
    requires
        pruned_all(old, mid, live, now),
        rebound_all(mid, new, live, now),
    ensures
        forall|k: int, j: int|
            0 <= k < new.len() && 0 <= j < new[k].windows@.len() ==> (
            #[trigger] new[k].windows@[j]).missed_ticks < GRACE_PERIOD_TICKS,
{
    assert forall|k: int, j: int|
        0 <= k < new.len() && 0 <= j < new[k].windows@.len() implies (
        #[trigger] new[k].windows@[j]).missed_ticks < GRACE_PERIOD_TICKS by {
        assert(pruned_project(old[k], mid[k], live, now));
        assert(rebound_project(mid[k], new[k], live, bound_before(mid, live, now, k), now));
        lemma_kept_under_grace(old[k].windows@, live);
        let n = mid[k].windows@.len();
        if j < n {
            assert(new[k].windows@[j] == new[k].windows@.take(n as int)[j]);
            assert(new[k].windows@[j] == mid[k].windows@[j]);
        } else {
            let r = project_rebind(mid[k], live, bound_before(mid, live, now, k), now);
            assert(is_reattached_ref(new[k].windows@[n + (j - n)], live[r.1[j - n].0], r.1[j - n].1));
        }
    }
}

/// The handles of the live windows that the pairs reattach to.
pub open spec fn attached_hwnds(
    pairs: Seq<(int, DroppedFingerprint)>,
    live: Seq<EnumeratedWindow>,
) -> Seq<isize> {
    pairs.map_values(|e: (int, DroppedFingerprint)| live[e.0].hwnd)
}

/// Reattachment never binds a window twice: each reattached window is a
/// live window whose handle was not in use, no two reattachments take the
/// same handle, and the handles in use afterwards are the old ones plus
/// those taken. Every fingerprint that stays was one of those given.
pub proof fn lemma_reattach_never_shares_handle(
    fps: Seq<DroppedFingerprint>,
    live: Seq<EnumeratedWindow>,
    bound: Seq<isize>,
)
    ensures
        ({
            let r = rebind_result(fps, live, bound);
            let hs = attached_hwnds(r.1, live);
            &&& r.2 == bound + hs
            &&& forall|j: int| 0 <= j < r.1.len() ==> 0 <= (#[trigger] r.1[j]).0 < live.len()
            &&& forall|j: int| 0 <= j < hs.len() ==> !bound.contains(#[trigger] hs[j])
            &&& forall|a: int, b: int| 0 <= a < b < hs.len() ==> hs[a] != hs[b]
            &&& forall|j: int| 0 <= j < r.0.len() ==> fps.contains(#[trigger] r.0[j])
        }),
    decreases fps.len(),
{
    let r = rebind_result(fps, live, bound);
    if fps.len() > 0 {
        crate::window_manager::lemma_first_index_sound(live, reopen_match(fps[0], bound));
        match reopen_index(fps[0], live, bound) {
            Some(i) => {
                let h = live[i].hwnd;
                let b2 = bound.push(h);
                lemma_reattach_never_shares_handle(fps.drop_first(), live, b2);
                let r2 = rebind_result(fps.drop_first(), live, b2);
                let hs2 = attached_hwnds(r2.1, live);
                let hs = attached_hwnds(r.1, live);
                assert(hs =~= seq![h] + hs2);
                assert(r.2 =~= bound + hs);
                assert(!bound.contains(h));
                assert forall|j: int| 0 <= j < hs.len() implies !bound.contains(#[trigger] hs[j]) by {
                    if j > 0 {
                        assert(hs[j] == hs2[j - 1]);
                        if bound.contains(hs2[j - 1]) {
                            let m = choose|m: int| 0 <= m < bound.len() && bound[m] == hs2[j - 1];
                            assert(b2[m] == hs2[j - 1]);
                        }
                    }
                }
                assert forall|a: int, b: int| 0 <= a < b < hs.len() implies hs[a] != hs[b] by {
                    if a == 0 {
                        assert(hs[b] == hs2[b - 1]);
                        assert(b2[bound.len() as int] == h);
                    } else {
                        assert(hs[a] == hs2[a - 1]);
                        assert(hs[b] == hs2[b - 1]);
                    }
                }
                assert forall|j: int| 0 <= j < r.1.len() implies 0 <= (#[trigger] r.1[j]).0 < live.len() by {
                    if j > 0 {
                        assert(r.1[j] == r2.1[j - 1]);
                    }
                }
                assert forall|j: int| 0 <= j < r.0.len() implies fps.contains(#[trigger] r.0[j]) by {
                    assert(fps.drop_first().contains(r.0[j]));
                    let m = choose|m: int| 0 <= m < fps.drop_first().len() && fps.drop_first()[m] == r.0[j];
                    assert(fps[m + 1] == r.0[j]);
                }
            },
            None => {
                lemma_reattach_never_shares_handle(fps.drop_first(), live, bound);
                let r2 = rebind_result(fps.drop_first(), live, bound);
                assert(attached_hwnds(r.1, live) =~= attached_hwnds(r2.1, live));
                assert forall|j: int| 0 <= j < r.0.len() implies fps.contains(#[trigger] r.0[j]) by {
                    if j == 0 {
                        assert(fps[0] == r.0[0]);
                    } else {
                        assert(r.0[j] == r2.0[j - 1]);
                        assert(fps.drop_first().contains(r.0[j]));
                        let m = choose|m: int| 0 <= m < fps.drop_first().len() && fps.drop_first()[m] == r.0[j];
                        assert(fps[m + 1] == r.0[j]);
                    }
                }
            },
        }
    } else {
        assert(attached_hwnds(r.1, live) =~= Seq::<isize>::empty());
        assert(bound + Seq::<isize>::empty() =~= bound);
    }
}

/// After the second pass, every fingerprint a project keeps is younger than
/// `DROPPED_FINGERPRINT_TTL`.
pub proof fn lemma_kept_fingerprints_fresh(
    old: Project,
    new: Project,
    live: Seq<EnumeratedWindow>,
    bound: Seq<isize>,
    now: i64,
)
    requires
        rebound_project(old, new, live, bound, now),
    ensures
        forall|j: int|
            0 <= j < new.dropped_fingerprints@.len() ==> (is_fresh(now))(
                #[trigger] new.dropped_fingerprints@[j],
            ),
{
    broadcast use vstd::seq_lib::group_filter_ensures;

    let fresh = old.dropped_fingerprints@.filter(is_fresh(now));
    lemma_reattach_never_shares_handle(fresh, live, bound);
    assert forall|j: int| 0 <= j < new.dropped_fingerprints@.len() implies (is_fresh(now))(
        #[trigger] new.dropped_fingerprints@[j],
    ) by {
        let x = new.dropped_fingerprints@[j];
        assert(fresh.contains(x));
        let m = choose|m: int| 0 <= m < fresh.len() && fresh[m] == x;
        assert((is_fresh(now))(fresh[m]));
    }
}

/// The first pass treats the references one by one: on a concatenation it
/// keeps and drops what it keeps and drops on each part.
proof fn lemma_pass1_concat(a: Seq<WindowRef>, b: Seq<WindowRef>, live: Seq<EnumeratedWindow>)
    ensures
        kept_windows(a + b, live) == kept_windows(a, live) + kept_windows(b, live),
        dropped_windows(a + b, live) == dropped_windows(a, live) + dropped_windows(b, live),
    decreases b.len(),
{
    if b.len() == 0 {
        assert(a + b =~= a);
        assert(kept_windows(b, live) =~= Seq::<WindowRef>::empty());
        assert(dropped_windows(b, live) =~= Seq::<WindowRef>::empty());
    } else {
        lemma_pass1_concat(a, b.drop_last(), live);
        assert((a + b).drop_last() =~= a + b.drop_last());
        assert((a + b).last() == b.last());
    }
}

/// Where the reference at position `i` of `ws` stands after the first pass
/// of a tick with live windows `live`: its position among the kept
/// references, or none when it is removed.
pub open spec fn kept_position(ws: Seq<WindowRef>, live: Seq<EnumeratedWindow>, i: int) -> Option<
    int,
> {
    if survives(ws[i], live) {
        Some(kept_windows(ws.take(i), live).len() as int)
    } else {
        None
    }
}

/// Over one tick of a project, the reference at position `i` either stays,
/// refreshed, at its kept position (the second pass only appends), or is
/// removed, its fingerprint added to the project's fingerprints by the
/// first pass.
pub proof fn lemma_reference_after_tick(
    old: Project,
    mid: Project,
    new: Project,
    live: Seq<EnumeratedWindow>,
    bound: Seq<isize>,
    now: i64,
    i: int,
)
    requires
        pruned_project(old, mid, live, now),
        rebound_project(mid, new, live, bound, now),
        0 <= i < old.windows@.len(),
    ensures
        match kept_position(old.windows@, live, i) {
            Some(j) => 0 <= j < mid.windows@.len() && new.windows@[j] == refreshed(
                old.windows@[i],
                live,
            ),
            None => mid.dropped_fingerprints@.contains(
                fingerprint_of(refreshed(old.windows@[i], live), now),
            ),
        },
{
    let ws = old.windows@;
    let a = ws.take(i);
    let b = ws.skip(i + 1);
    assert(ws =~= a + seq![ws[i]] + b);
    lemma_pass1_concat(a + seq![ws[i]], b, live);
    lemma_pass1_concat(a, seq![ws[i]], live);
    let one = seq![ws[i]];
    assert(one.drop_last() =~= Seq::<WindowRef>::empty());
    assert(kept_windows(Seq::<WindowRef>::empty(), live) =~= Seq::<WindowRef>::empty());
    assert(dropped_windows(Seq::<WindowRef>::empty(), live) =~= Seq::<WindowRef>::empty());
    let w1 = refreshed(ws[i], live);
    let n = mid.windows@.len();
    if survives(ws[i], live) {
        let j = kept_windows(a, live).len() as int;
        assert(kept_windows(one, live) =~= seq![w1]);
        assert(mid.windows@[j] == w1);
        assert(new.windows@.take(n as int)[j] == new.windows@[j]);
    } else {
        assert(dropped_windows(one, live) =~= seq![w1]);
        let d = dropped_windows(ws, live);
        let k = dropped_windows(a, live).len() as int;
        assert(d[k] == w1);
        let fps = fingerprints_of(d, now);
        assert(fps[k] == fingerprint_of(w1, now));
        let all = old.dropped_fingerprints@ + fps;
        assert(all[old.dropped_fingerprints@.len() + k] == fingerprint_of(w1, now));
    }
}

/// Matching reads only a reference's title, pattern, executable and class.
proof fn lemma_match_ignores_state(w: WindowRef, v: WindowRef, live: Seq<EnumeratedWindow>)
    requires
        w.title_snapshot == v.title_snapshot,
        w.title_pattern == v.title_pattern,
        w.exe_path == v.exe_path,
        w.class_name == v.class_name,
    ensures
        match_index(w, live) == match_index(v, live),
{
    assert(crate::window_manager::exact_title_match(w) =~= crate::window_manager::exact_title_match(v));
    assert(crate::window_manager::pattern_match(w) =~= crate::window_manager::pattern_match(v));
}

/// A window missing for three ticks is removed: the reference at position
/// `i` of a project, with no misses, that no live window matches on three
/// consecutive ticks is still in the project, not live, with one and then
/// two misses after the first and second tick, and is removed by the third,
/// which keeps its fingerprint. A match in between would have reset its
/// miss count to 0 (see `refreshed`).
pub proof fn lemma_missing_three_ticks_removed(
    p0: Project,
    m1: Project,
    p1: Project,
    m2: Project,
    p2: Project,
    m3: Project,
    p3: Project,
    l1: Seq<EnumeratedWindow>,
    l2: Seq<EnumeratedWindow>,
    l3: Seq<EnumeratedWindow>,
    b1: Seq<isize>,
    b2: Seq<isize>,
    b3: Seq<isize>,
    n1: i64,
    n2: i64,
    n3: i64,
    i: int,
)
    requires
        0 <= i < p0.windows@.len(),
        p0.windows@[i].missed_ticks == 0,
        match_index(p0.windows@[i], l1) is None,
        match_index(p0.windows@[i], l2) is None,
        match_index(p0.windows@[i], l3) is None,
        pruned_project(p0, m1, l1, n1),
        rebound_project(m1, p1, l1, b1, n1),
        pruned_project(p1, m2, l2, n2),
        rebound_project(m2, p2, l2, b2, n2),
        pruned_project(p2, m3, l3, n3),
        rebound_project(m3, p3, l3, b3, n3),
    ensures
        ({
            let w = p0.windows@[i];
            let j1 = kept_windows(p0.windows@.take(i), l1).len() as int;
            let j2 = kept_windows(p1.windows@.take(j1), l2).len() as int;
            &&& kept_position(p0.windows@, l1, i) == Some(j1)
            &&& 0 <= j1 < p1.windows@.len()
            &&& p1.windows@[j1] == WindowRef { missed_ticks: 1, live: false, last_seen_hwnd: None, ..w }
            &&& kept_position(p1.windows@, l2, j1) == Some(j2)
            &&& 0 <= j2 < p2.windows@.len()
            &&& p2.windows@[j2] == WindowRef { missed_ticks: 2, live: false, last_seen_hwnd: None, ..w }
            &&& kept_position(p2.windows@, l3, j2) is None
            &&& m3.dropped_fingerprints@.contains(
                fingerprint_of(WindowRef { missed_ticks: 3, live: false, last_seen_hwnd: None, ..w }, n3),
            )
        }),
{
    let w = p0.windows@[i];
    lemma_reference_after_tick(p0, m1, p1, l1, b1, n1, i);
    let j1 = kept_windows(p0.windows@.take(i), l1).len() as int;
    let w1 = refreshed(w, l1);
    assert(w1 == WindowRef { missed_ticks: 1, live: false, last_seen_hwnd: None, ..w });
    lemma_match_ignores_state(w1, w, l2);
    lemma_reference_after_tick(p1, m2, p2, l2, b2, n2, j1);
    let j2 = kept_windows(p1.windows@.take(j1), l2).len() as int;
    let w2 = refreshed(w1, l2);
    assert(w2 == WindowRef { missed_ticks: 2, live: false, last_seen_hwnd: None, ..w });
    lemma_match_ignores_state(w2, w, l3);
    lemma_reference_after_tick(p2, m3, p3, l3, b3, n3, j2);
    assert(refreshed(w2, l3) == WindowRef { missed_ticks: 3, live: false, last_seen_hwnd: None, ..w });
}

/// The handles held by references `ws` are exactly the handles some
/// reference of `ws` was last seen with.
pub proof fn lemma_window_hwnds_contains(ws: Seq<WindowRef>, h: isize)
    ensures
        window_hwnds(ws).contains(h) <==> exists|j: int|
            0 <= j < ws.len() && (#[trigger] ws[j]).last_seen_hwnd == Some(h),
    decreases ws.len(),
{
    if ws.len() > 0 {
        let t = ws.drop_last();
        lemma_window_hwnds_contains(t, h);
        let tail = match ws.last().last_seen_hwnd {
            Some(x) => seq![x],
            None => Seq::<isize>::empty(),
        };
        assert(window_hwnds(ws) == window_hwnds(t) + tail);
        if window_hwnds(ws).contains(h) {
            let m = choose|m: int| 0 <= m < window_hwnds(ws).len() && window_hwnds(ws)[m] == h;
            if m < window_hwnds(t).len() {
                assert(window_hwnds(t)[m] == h);
                assert(window_hwnds(t).contains(h));
                let j = choose|j: int| 0 <= j < t.len() && (#[trigger] t[j]).last_seen_hwnd == Some(h);
                assert(ws[j] == t[j]);
            } else {
                assert(ws[ws.len() - 1].last_seen_hwnd == Some(h));
            }
        }
        if exists|j: int| 0 <= j < ws.len() && (#[trigger] ws[j]).last_seen_hwnd == Some(h) {
            let j = choose|j: int| 0 <= j < ws.len() && (#[trigger] ws[j]).last_seen_hwnd == Some(h);
            if j < t.len() {
                assert(t[j] == ws[j]);
                assert(window_hwnds(t).contains(h));
                let m = choose|m: int| 0 <= m < window_hwnds(t).len() && window_hwnds(t)[m] == h;
                assert(window_hwnds(ws)[m] == h);
            } else {
                assert(window_hwnds(ws)[window_hwnds(t).len() as int] == h);
            }
        }
    }
}

/// A handle some reference of some project was last seen with is among the
/// bound handles.
proof fn lemma_bound_hwnds_contains(ps: Seq<Project>, k: int, j: int, h: isize)
    requires
        0 <= k < ps.len(),
        0 <= j < ps[k].windows@.len(),
        ps[k].windows@[j].last_seen_hwnd == Some(h),
    ensures
        bound_hwnds(ps).contains(h),
    decreases ps.len(),
{
    let t = ps.drop_last();
    assert(bound_hwnds(ps) == bound_hwnds(t) + window_hwnds(ps.last().windows@));
    if k < t.len() {
        assert(t[k] == ps[k]);
        lemma_bound_hwnds_contains(t, k, j, h);
        let m = choose|m: int| 0 <= m < bound_hwnds(t).len() && bound_hwnds(t)[m] == h;
        assert(bound_hwnds(ps)[m] == h);
    } else {
        lemma_window_hwnds_contains(ps.last().windows@, h);
        let ws = window_hwnds(ps.last().windows@);
        let m = choose|m: int| 0 <= m < ws.len() && ws[m] == h;
        assert(bound_hwnds(ps)[bound_hwnds(t).len() + m] == h);
    }
}

/// The handles in use during the second pass: those in use before project
/// `k`, followed by those its reattachments take.
proof fn lemma_bound_before_step(ps: Seq<Project>, live: Seq<EnumeratedWindow>, now: i64, k: int)
    requires
        0 <= k < ps.len(),
    ensures
        bound_before(ps, live, now, k + 1) == bound_before(ps, live, now, k) + attached_hwnds(
            project_rebind(ps[k], live, bound_before(ps, live, now, k), now).1,
            live,
        ),
{
    lemma_reattach_never_shares_handle(
        ps[k].dropped_fingerprints@.filter(is_fresh(now)),
        live,
        bound_before(ps, live, now, k),
    );
}

/// Handles in use stay in use as the second pass goes on.
proof fn lemma_bound_before_grows(
    ps: Seq<Project>,
    live: Seq<EnumeratedWindow>,
    now: i64,
    k1: int,
    k2: int,
    h: isize,
)
    requires
        0 <= k1 <= k2 <= ps.len(),
        bound_before(ps, live, now, k1).contains(h),
    ensures
        bound_before(ps, live, now, k2).contains(h),
    decreases k2 - k1,
{
    if k1 < k2 {
        lemma_bound_before_step(ps, live, now, k1);
        let b = bound_before(ps, live, now, k1);
        let m = choose|m: int| 0 <= m < b.len() && b[m] == h;
        assert(bound_before(ps, live, now, k1 + 1)[m] == h);
        lemma_bound_before_grows(ps, live, now, k1 + 1, k2, h);
    }
}

/// What the second pass knows of a reattached reference of project `k`:
/// its handle is the `jj`-th one taken there, which was not in use before.
proof fn lemma_reattached_handle(
    mid: Seq<Project>,
    new: Seq<Project>,
    live: Seq<EnumeratedWindow>,
    now: i64,
    k: int,
    j: int,
)
    requires
        rebound_all(mid, new, live, now),
        0 <= k < mid.len(),
        mid[k].windows@.len() <= j < new[k].windows@.len(),
    ensures
        ({
            let b = bound_before(mid, live, now, k);
            let hs = attached_hwnds(project_rebind(mid[k], live, b, now).1, live);
            let jj = j - mid[k].windows@.len();
            &&& 0 <= jj < hs.len()
            &&& new[k].windows@[j].last_seen_hwnd == Some(hs[jj])
            &&& !b.contains(hs[jj])
            &&& forall|x: int| 0 <= x < hs.len() && x != jj ==> hs[x] != hs[jj]
        }),
{
    let b = bound_before(mid, live, now, k);
    let r = project_rebind(mid[k], live, b, now);
    assert(rebound_project(mid[k], new[k], live, b, now));
    let n = mid[k].windows@.len();
    let jj = j - n;
    lemma_reattach_never_shares_handle(mid[k].dropped_fingerprints@.filter(is_fresh(now)), live, b);
    assert(is_reattached_ref(new[k].windows@[n + jj], live[r.1[jj].0], r.1[jj].1));
    let hs = attached_hwnds(r.1, live);
    assert(hs[jj] == live[r.1[jj].0].hwnd);
    assert forall|x: int| 0 <= x < hs.len() && x != jj implies hs[x] != hs[jj] by {
        if x < jj {
            assert(hs[x] != hs[jj]);
        } else {
            assert(hs[jj] != hs[x]);
        }
    }
}

/// The second pass never attaches a window twice: the handle of every
/// reference it reattaches is the handle of no other reference of any
/// project after the tick, neither one kept by the first pass (of the same
/// or any other project) nor another reattached one.
pub proof fn lemma_tick_reattaches_free_handles(
    mid: Seq<Project>,
    new: Seq<Project>,
    live: Seq<EnumeratedWindow>,
    now: i64,
)
    requires
        rebound_all(mid, new, live, now),
    ensures
        forall|k: int, j: int, k2: int, j2: int|
            0 <= k < new.len() && mid[k].windows@.len() <= j < new[k].windows@.len() && 0 <= k2
                < new.len() && 0 <= j2 < new[k2].windows@.len() && (k2 != k || j2 != j) ==> (
            #[trigger] new[k].windows@[j]).last_seen_hwnd != (
            #[trigger] new[k2].windows@[j2]).last_seen_hwnd,
{
    assert forall|k: int, j: int, k2: int, j2: int|
        0 <= k < new.len() && mid[k].windows@.len() <= j < new[k].windows@.len() && 0 <= k2
            < new.len() && 0 <= j2 < new[k2].windows@.len() && (k2 != k || j2 != j) implies (
        #[trigger] new[k].windows@[j]).last_seen_hwnd != (
        #[trigger] new[k2].windows@[j2]).last_seen_hwnd by {
        lemma_reattached_handle(mid, new, live, now, k, j);
        let b = bound_before(mid, live, now, k);
        let hs = attached_hwnds(project_rebind(mid[k], live, b, now).1, live);
        let h = hs[j - mid[k].windows@.len()];
        let n2 = mid[k2].windows@.len();
        assert(rebound_project(mid[k2], new[k2], live, bound_before(mid, live, now, k2), now));
        if j2 < n2 {
            assert(new[k2].windows@[j2] == new[k2].windows@.take(n2 as int)[j2]);
            if new[k2].windows@[j2].last_seen_hwnd == Some(h) {
                lemma_bound_hwnds_contains(mid, k2, j2, h);
                lemma_bound_before_grows(mid, live, now, 0, k, h);
            }
        } else {
            lemma_reattached_handle(mid, new, live, now, k2, j2);
            let b2 = bound_before(mid, live, now, k2);
            let hs2 = attached_hwnds(project_rebind(mid[k2], live, b2, now).1, live);
            let h2 = hs2[j2 - n2];
            if k2 < k {
                lemma_bound_before_step(mid, live, now, k2);
                assert(bound_before(mid, live, now, k2 + 1)[b2.len() + (j2 - n2)] == h2);
                lemma_bound_before_grows(mid, live, now, k2 + 1, k, h2);
            } else if k < k2 {
                lemma_bound_before_step(mid, live, now, k);
                assert(bound_before(mid, live, now, k + 1)[b.len() + (j - mid[k].windows@.len())] == h);
                lemma_bound_before_grows(mid, live, now, k + 1, k2, h);
            }
        }
    }
}

} // verus!
