//! The per-window state lists (maximized, solo-tiled, snapped, posed) and
//! the transitions between them: maximizing, solo-tiling, posing a half and
//! swapping two windows. Each transition says when it refuses and what
//! every list holds afterwards; moving and animating the windows is the
//! caller's.

use vstd::prelude::*;

use crate::geometry::Rect;
use crate::placement::{restore_fits, sanitize_restore_rect, spec_sanitize_restore};
use crate::pose::{
    half_left_next, half_right_next, pose_area_fits, pose_rect, spec_half_left_next, spec_half_right_next,
    spec_pose_rect, spec_pose_work_area, middle_fits, PoseSlot,
};
use crate::snap::{fits, Insets, SnapZone};
use crate::unique::{keys_once, lemma_keys_once_filter, lemma_keys_once_push, lemma_keys_once_remove};
use crate::windows::{
    entry_index, forget_entries, lemma_entry_index, has_entry, pick_restore, solo_fits, solo_tile_target, spec_pick_restore,
    take_restore, without, StateEntry, SINGLE_WINDOW_OUTER_GAP,
};

verus! {

/// A window in a pose slot.
#[derive(Clone, Copy, Debug, PartialEq, Eq, Structural)]
pub struct PosedEntry {
    pub surface: u64,
    pub slot: PoseSlot,
}

/// A window snapped to a zone.
#[derive(Clone, Copy, Debug, PartialEq, Eq, Structural)]
pub struct SnappedEntry {
    pub surface: u64,
    pub zone: SnapZone,
}

/// The state lists of all windows.
pub struct WindowStates {
    pub maximized: Vec<StateEntry>,
    pub solo_tiled: Vec<StateEntry>,
    pub snapped: Vec<SnappedEntry>,
    pub posed: Vec<PosedEntry>,
}

impl WindowStates {
    /// No window has two entries in any one list.
    pub open spec fn wf(&self) -> bool {
        &&& keys_once(self.maximized@, |e: StateEntry| e.surface)
        &&& keys_once(self.solo_tiled@, |e: StateEntry| e.surface)
        &&& keys_once(self.snapped@, |e: SnappedEntry| e.surface)
        &&& keys_once(self.posed@, |e: PosedEntry| e.surface)
    }

    /// No window in any state.
    pub fn new() -> (r: Self)
        ensures
            r.wf(),
            r.maximized@.len() == 0,
            r.solo_tiled@.len() == 0,
            r.snapped@.len() == 0,
            r.posed@.len() == 0,
    {
        WindowStates { maximized: Vec::new(), solo_tiled: Vec::new(), snapped: Vec::new(), posed: Vec::new() }
    }
}

/// Dropping a window's poses keeps every other window posed at most once,
/// and leaves it unposed.
proof fn lemma_unposed_once(l: Seq<PosedEntry>, s: u64)
    requires
        keys_once(l, |e: PosedEntry| e.surface),
    ensures
        keys_once(unposed(l, s), |e: PosedEntry| e.surface),
        forall|i: int| 0 <= i < unposed(l, s).len() ==> (#[trigger] unposed(l, s)[i]).surface != s,
{
    let p = |e: PosedEntry| e.surface != s;
    lemma_keys_once_filter(l, |e: PosedEntry| e.surface, p);
    assert forall|i: int| 0 <= i < unposed(l, s).len() implies (#[trigger] unposed(l, s)[i]).surface != s by {
        l.lemma_filter_pred(p, i);
    }
}

/// The slot of `s`'s first entry among the first `n`.
pub open spec fn pose_of_in(l: Seq<PosedEntry>, s: u64, n: int) -> Option<PoseSlot>
    decreases n,
{
    if n <= 0 {
        None
    } else {
        match pose_of_in(l, s, n - 1) {
            Some(p) => Some(p),
            None => if l[n - 1].surface == s {
                Some(l[n - 1].slot)
            } else {
                None
            },
        }
    }
}

/// The pose slot of `s`, if it is posed.
pub open spec fn spec_pose_of(l: Seq<PosedEntry>, s: u64) -> Option<PoseSlot> {
    pose_of_in(l, s, l.len() as int)
}

proof fn lemma_pose_of_stays(l: Seq<PosedEntry>, s: u64, n: int, m: int)
    requires
        0 <= n <= m,
        pose_of_in(l, s, n) is Some,
    ensures
        pose_of_in(l, s, m) == pose_of_in(l, s, n),
    decreases m - n,
{
    if m > n {
        lemma_pose_of_stays(l, s, n, m - 1);
    }
}

/// The pose slot of `s` (see [`spec_pose_of`]).
pub fn pose_of(l: &Vec<PosedEntry>, s: u64) -> (r: Option<PoseSlot>)
    ensures
        r == spec_pose_of(l@, s),
{
    let mut i: usize = 0;
    while i < l.len()
        invariant
            i <= l@.len(),
            pose_of_in(l@, s, i as int) is None,
        decreases l@.len() - i,
    {
        if l[i].surface == s {
            proof {
                lemma_pose_of_stays(l@, s, i + 1, l@.len() as int);
            }
            return Some(l[i].slot);
        }
        i += 1;
    }
    None
}

/// `l` without the poses of `s`.
pub open spec fn unposed(l: Seq<PosedEntry>, s: u64) -> Seq<PosedEntry> {
    l.filter(|e: PosedEntry| e.surface != s)
}

/// `l` without the snaps of `s`.
pub open spec fn unsnapped(l: Seq<SnappedEntry>, s: u64) -> Seq<SnappedEntry> {
    l.filter(|e: SnappedEntry| e.surface != s)
}

/// Drop `s` from the posed windows.
pub fn unpose(l: &mut Vec<PosedEntry>, s: u64)
    ensures
        final(l)@ == unposed(old(l)@, s),
{
    let mut kept: Vec<PosedEntry> = Vec::new();
    let mut i: usize = 0;
    while i < l.len()
        invariant
            i <= l@.len(),
            kept@ == unposed(l@.take(i as int), s),
        decreases l@.len() - i,
    {
        let e = l[i];
        proof {
            assert(l@.take(i + 1).drop_last() =~= l@.take(i as int));
            reveal(Seq::filter);
        }
        if e.surface != s {
            kept.push(e);
        }
        proof {
            assert(kept@ =~= unposed(l@.take(i + 1), s));
        }
        i += 1;
    }
    proof {
        assert(l@.take(i as int) =~= l@);
    }
    *l = kept;
}

/// Drop `s` from the snapped windows.
pub fn unsnap(l: &mut Vec<SnappedEntry>, s: u64)
    ensures
        final(l)@ == unsnapped(old(l)@, s),
{
    let mut kept: Vec<SnappedEntry> = Vec::new();
    let mut i: usize = 0;
    while i < l.len()
        invariant
            i <= l@.len(),
            kept@ == unsnapped(l@.take(i as int), s),
        decreases l@.len() - i,
    {
        let e = l[i];
        proof {
            assert(l@.take(i + 1).drop_last() =~= l@.take(i as int));
            reveal(Seq::filter);
        }
        if e.surface != s {
            kept.push(e);
        }
        proof {
            assert(kept@ =~= unsnapped(l@.take(i + 1), s));
        }
        i += 1;
    }
    proof {
        assert(l@.take(i as int) =~= l@);
    }
    *l = kept;
}

/// Whether `s` has an entry in `l`.
pub open spec fn listed(l: Seq<StateEntry>, s: u64) -> bool {
    exists|i: int| 0 <= i < l.len() && l[i].surface == s
}

/// Maximize window `s` on the output with geometry `output_geo`. An already
/// maximized window is refused and nothing changes. Otherwise its restore
/// rectangle is picked (an explicit one, else the middle pose rectangle if
/// it is posed, else the in-flight animation target, else its current
/// rectangle) and repaired against the output (with the ~70% fallback size
/// `fallback_w × fallback_h`); it is added to the maximized windows with
/// the output's geometry as target, and its pose is dropped.
pub fn maximize_with_restore(
    st: &mut WindowStates,
    s: u64,
    restore_override: Option<Rect>,
    middle: Option<Rect>,
    anim_target: Option<Rect>,
    current: Rect,
    output_geo: Rect,
    fallback_w: i32,
    fallback_h: i32,
) -> (r: bool)
    requires
        old(st).wf(),
        restore_fits(output_geo, fallback_w, fallback_h),
    ensures
        final(st).wf(),
        r == !listed(old(st).maximized@, s),
        !r ==> final(st).maximized@ == old(st).maximized@ && final(st).posed@ == old(st).posed@,
        r ==> final(st).maximized@ == old(st).maximized@.push(
            StateEntry {
                surface: s,
                restore: spec_sanitize_restore(
                    spec_pick_restore(
                        restore_override,
                        spec_pose_of(old(st).posed@, s) is Some,
                        middle,
                        anim_target,
                        current,
                    ),
                    output_geo,
                    fallback_w,
                    fallback_h,
                ),
                target: output_geo,
            },
        ),
        r ==> final(st).posed@ == unposed(old(st).posed@, s),
        final(st).solo_tiled@ == old(st).solo_tiled@,
        final(st).snapped@ == old(st).snapped@,
{
    if has_entry(&st.maximized, s) {
        return false;
    }
    let posed = pose_of(&st.posed, s).is_some();
    let raw = pick_restore(restore_override, posed, middle, anim_target, current);
    let restore = sanitize_restore_rect(raw, output_geo, fallback_w, fallback_h);
    let ghost m0 = st.maximized@;
    unpose(&mut st.posed, s);
    st.maximized.push(StateEntry { surface: s, restore, target: output_geo });
    proof {
        lemma_unposed_once(old(st).posed@, s);
        assert forall|i: int| 0 <= i < m0.len() implies (#[trigger] m0[i]).surface != s by {
            if m0[i].surface == s {
                assert(listed(m0, s));
            }
        }
        lemma_keys_once_push(m0, |e: StateEntry| e.surface, StateEntry { surface: s, restore, target: output_geo });
    }
    true
}

/// Solo-tile window `s` on the output with geometry `geo` and exclusive
/// zones `ins`. A window already solo-tiled or maximized is refused and
/// nothing changes. Otherwise it is added to the solo-tiled windows with
/// the solo-tile rectangle as target and, as restore rectangle, the middle
/// pose rectangle if it is posed (else its current rectangle), or else the
/// in-flight animation target (else its current rectangle); its pose is
/// dropped.
pub fn solo_tile(
    st: &mut WindowStates,
    s: u64,
    geo: Rect,
    ins: Insets,
    middle: Option<Rect>,
    anim_target: Option<Rect>,
    current: Rect,
) -> (r: bool)
    requires
        old(st).wf(),
        !listed(old(st).solo_tiled@, s) && !listed(old(st).maximized@, s) ==> solo_fits(geo, ins),
    ensures
        final(st).wf(),
        r == (!listed(old(st).solo_tiled@, s) && !listed(old(st).maximized@, s)),
        !r ==> final(st).solo_tiled@ == old(st).solo_tiled@ && final(st).posed@ == old(st).posed@,
        r ==> final(st).solo_tiled@ == old(st).solo_tiled@.push(
            StateEntry {
                surface: s,
                restore: spec_pick_restore(None, spec_pose_of(old(st).posed@, s) is Some, middle, anim_target, current),
                target: Rect {
                    x: (geo.x + ins.left + SINGLE_WINDOW_OUTER_GAP) as i32,
                    y: (geo.y + ins.top + SINGLE_WINDOW_OUTER_GAP) as i32,
                    w: (geo.w - ins.left - ins.right - SINGLE_WINDOW_OUTER_GAP * 2) as i32,
                    h: (geo.h - ins.top - ins.bottom - SINGLE_WINDOW_OUTER_GAP * 2) as i32,
                },
            },
        ),
        r ==> final(st).posed@ == unposed(old(st).posed@, s),
        final(st).maximized@ == old(st).maximized@,
        final(st).snapped@ == old(st).snapped@,
{
    if has_entry(&st.solo_tiled, s) || has_entry(&st.maximized, s) {
        return false;
    }
    let target = solo_tile_target(geo, ins);
    let posed = pose_of(&st.posed, s).is_some();
    let restore = pick_restore(None, posed, middle, anim_target, current);
    let ghost t0 = st.solo_tiled@;
    unpose(&mut st.posed, s);
    st.solo_tiled.push(StateEntry { surface: s, restore, target });
    proof {
        lemma_unposed_once(old(st).posed@, s);
        assert forall|i: int| 0 <= i < t0.len() implies (#[trigger] t0[i]).surface != s by {
            if t0[i].surface == s {
                assert(listed(t0, s));
            }
        }
        lemma_keys_once_push(t0, |e: StateEntry| e.surface, StateEntry { surface: s, restore, target });
    }
    true
}

/// The pose rectangle of `slot` can be computed in `i32`.
pub open spec fn pose_rect_ok(geo: Rect, ins: Insets, slot: PoseSlot, default_size: Option<(i32, i32)>) -> bool {
    &&& pose_area_fits(geo, ins)
    &&& spec_pose_work_area(geo, ins) matches Some(work) ==> fits(work.x + work.w) && fits(work.y + work.h) && (
    slot == PoseSlot::Middle ==> middle_fits(work, default_size))
}

/// The lists after posing `s` into `slot`: it leaves the maximized,
/// solo-tiled and snapped windows, and its pose becomes `slot`.
pub open spec fn posed_into(old_st: (Seq<StateEntry>, Seq<StateEntry>, Seq<SnappedEntry>, Seq<PosedEntry>), s: u64, slot: PoseSlot) -> (
    Seq<StateEntry>,
    Seq<StateEntry>,
    Seq<SnappedEntry>,
    Seq<PosedEntry>,
) {
    (
        without(old_st.0, s),
        without(old_st.1, s),
        unsnapped(old_st.2, s),
        unposed(old_st.3, s).push(PosedEntry { surface: s, slot }),
    )
}

/// The four lists of `st`.
pub open spec fn lists(st: &WindowStates) -> (Seq<StateEntry>, Seq<StateEntry>, Seq<SnappedEntry>, Seq<PosedEntry>) {
    (st.maximized@, st.solo_tiled@, st.snapped@, st.posed@)
}

/// Pose `s` into `slot` when the slot has a rectangle on its output: it
/// leaves the other state lists (see [`posed_into`]). Returns the slot's
/// rectangle, or `None` (nothing changed) when the output has no room.
pub fn apply_pose(
    st: &mut WindowStates,
    s: u64,
    slot: PoseSlot,
    geo: Rect,
    ins: Insets,
    default_size: Option<(i32, i32)>,
) -> (r: Option<Rect>)
    requires
        old(st).wf(),
        pose_rect_ok(geo, ins, slot, default_size),
    ensures
        final(st).wf(),
        r == spec_pose_rect(geo, ins, slot, default_size),
        r is None ==> lists(final(st)) == lists(old(st)),
        r is Some ==> lists(final(st)) == posed_into(lists(old(st)), s, slot),
{
    let target = pose_rect(geo, ins, slot, default_size);
    if target.is_none() {
        return None;
    }
    forget_entries(&mut st.maximized, s);
    forget_entries(&mut st.solo_tiled, s);
    unsnap(&mut st.snapped, s);
    unpose(&mut st.posed, s);
    st.posed.push(PosedEntry { surface: s, slot });
    proof {
        lemma_keys_once_filter(old(st).maximized@, |e: StateEntry| e.surface, |e: StateEntry| e.surface != s);
        lemma_keys_once_filter(old(st).solo_tiled@, |e: StateEntry| e.surface, |e: StateEntry| e.surface != s);
        lemma_keys_once_filter(old(st).snapped@, |e: SnappedEntry| e.surface, |e: SnappedEntry| e.surface != s);
        lemma_unposed_once(old(st).posed@, s);
        lemma_keys_once_push(unposed(old(st).posed@, s), |e: PosedEntry| e.surface, PosedEntry { surface: s, slot });
    }
    target
}

/// Super+Shift+Left on window `s`: the next slot of the half-left cycle
/// from its current pose (see [`spec_half_left_next`]); refused with
/// nothing changed when it is already the left half or the slot has no
/// room, else the window is posed there (see [`apply_pose`]).
pub fn pose_half_left(st: &mut WindowStates, s: u64, geo: Rect, ins: Insets, default_size: Option<(i32, i32)>) -> (r: Option<Rect>)
    requires
        old(st).wf(),
        spec_half_left_next(spec_pose_of(old(st).posed@, s)) matches Some(t) ==> pose_rect_ok(geo, ins, t, default_size),
    ensures
        final(st).wf(),
        match spec_half_left_next(spec_pose_of(old(st).posed@, s)) {
            None => r is None && lists(final(st)) == lists(old(st)),
            Some(t) => {
                &&& r == spec_pose_rect(geo, ins, t, default_size)
                &&& r is None ==> lists(final(st)) == lists(old(st))
                &&& r is Some ==> lists(final(st)) == posed_into(lists(old(st)), s, t)
            },
        },
{
    let cur = pose_of(&st.posed, s);
    match half_left_next(cur) {
        None => None,
        Some(t) => apply_pose(st, s, t, geo, ins, default_size),
    }
}

/// Super+Shift+Right on window `s`: as [`pose_half_left`], mirrored.
pub fn pose_half_right(st: &mut WindowStates, s: u64, geo: Rect, ins: Insets, default_size: Option<(i32, i32)>) -> (r: Option<Rect>)
    requires
        old(st).wf(),
        spec_half_right_next(spec_pose_of(old(st).posed@, s)) matches Some(t) ==> pose_rect_ok(geo, ins, t, default_size),
    ensures
        final(st).wf(),
        match spec_half_right_next(spec_pose_of(old(st).posed@, s)) {
            None => r is None && lists(final(st)) == lists(old(st)),
            Some(t) => {
                &&& r == spec_pose_rect(geo, ins, t, default_size)
                &&& r is None ==> lists(final(st)) == lists(old(st))
                &&& r is Some ==> lists(final(st)) == posed_into(lists(old(st)), s, t)
            },
        },
{
    let cur = pose_of(&st.posed, s);
    match half_right_next(cur) {
        None => None,
        Some(t) => apply_pose(st, s, t, geo, ins, default_size),
    }
}

/// `l` after taking `s`'s first entry out, if it has one.
pub open spec fn taken(l: Seq<StateEntry>, s: u64) -> Seq<StateEntry> {
    match entry_index(l, s) {
        Some(i) => l.remove(i),
        None => l,
    }
}

/// What a swap does to its two windows: the targets they move to (each
/// takes the other's rectangle) and whether each was maximized (and so is
/// no longer).
pub struct SwapOutcome {
    pub focused_target: Rect,
    pub other_target: Rect,
    pub focused_was_maximized: bool,
    pub other_was_maximized: bool,
}

/// Swap the focused window `f` (at `frect`) with `o` (at `orect`): the two
/// trade rectangles, and both leave the maximized windows (so the swapped
/// rectangles stick) and the posed windows.
pub fn swap_windows(st: &mut WindowStates, f: u64, frect: Rect, o: u64, orect: Rect) -> (r: SwapOutcome)
    requires
        old(st).wf(),
    ensures
        final(st).wf(),
        r.focused_target == orect,
        r.other_target == frect,
        r.focused_was_maximized == (entry_index(old(st).maximized@, f) is Some),
        r.other_was_maximized == (entry_index(taken(old(st).maximized@, f), o) is Some),
        final(st).maximized@ == taken(taken(old(st).maximized@, f), o),
        final(st).posed@ == unposed(unposed(old(st).posed@, f), o),
        final(st).solo_tiled@ == old(st).solo_tiled@,
        final(st).snapped@ == old(st).snapped@,
{
    let fm = take_restore(&mut st.maximized, f);
    let om = take_restore(&mut st.maximized, o);
    unpose(&mut st.posed, f);
    unpose(&mut st.posed, o);
    proof {
        let m0 = old(st).maximized@;
        if let Some(i) = entry_index(m0, f) {
            lemma_entry_index(m0, f, m0.len() as int);
            lemma_keys_once_remove(m0, |e: StateEntry| e.surface, i);
        }
        let m1 = taken(m0, f);
        if let Some(i) = entry_index(m1, o) {
            lemma_entry_index(m1, o, m1.len() as int);
            lemma_keys_once_remove(m1, |e: StateEntry| e.surface, i);
        }
        lemma_unposed_once(old(st).posed@, f);
        lemma_unposed_once(unposed(old(st).posed@, f), o);
    }
    SwapOutcome {
        focused_target: orect,
        other_target: frect,
        focused_was_maximized: fm.is_some(),
        other_was_maximized: om.is_some(),
    }
}

/// A minimized window and where it was.
#[derive(Clone, Copy, Debug, PartialEq, Eq, Structural)]
pub struct MinimizedEntry {
    pub surface: u64,
    pub x: i32,
    pub y: i32,
}

/// Index of `s`'s first entry among the first `n` minimized windows.
pub open spec fn minimized_index_in(l: Seq<MinimizedEntry>, s: u64, n: int) -> Option<int>
    decreases n,
{
    if n <= 0 {
        None
    } else {
        match minimized_index_in(l, s, n - 1) {
            Some(i) => Some(i),
            None => if l[n - 1].surface == s {
                Some(n - 1)
            } else {
                None
            },
        }
    }
}

proof fn lemma_minimized_index(l: Seq<MinimizedEntry>, s: u64, n: int, m: int)
    requires
        0 <= n <= m,
        minimized_index_in(l, s, n) is Some,
    ensures
        minimized_index_in(l, s, m) == minimized_index_in(l, s, n),
        minimized_index_in(l, s, n) matches Some(i) && 0 <= i < n,
    decreases m - n,
{
    if m > n {
        lemma_minimized_index(l, s, n, m - 1);
    } else {
        lemma_minimized_index_range(l, s, n);
    }
}

proof fn lemma_minimized_index_range(l: Seq<MinimizedEntry>, s: u64, n: int)
    requires
        0 <= n,
    ensures
        minimized_index_in(l, s, n) matches Some(i) ==> 0 <= i < n,
    decreases n,
{
    if n > 0 {
        lemma_minimized_index_range(l, s, n - 1);
    }
}

/// Where a restored window goes: the location to map it at, and whether it
/// comes back maximized.
#[derive(Clone, Copy, Debug, PartialEq, Eq, Structural)]
pub struct RestorePlan {
    pub x: i32,
    pub y: i32,
    pub maximized: bool,
}

/// Take `s` out of the minimized windows (its first entry) and say where
/// it goes back: a window that was maximized comes back maximized at its
/// output's origin (`output_geo`, when its output is known); any other at
/// the location it was minimized from. `None`, with nothing changed, when
/// `s` is not minimized.
pub fn restore_minimized(
    minimized: &mut Vec<MinimizedEntry>,
    maximized: &Vec<StateEntry>,
    s: u64,
    output_geo: Option<Rect>,
) -> (r: Option<RestorePlan>)
    ensures
        match minimized_index_in(old(minimized)@, s, old(minimized)@.len() as int) {
            None => r is None && final(minimized)@ == old(minimized)@,
            Some(i) => {
                let e = old(minimized)@[i];
                &&& final(minimized)@ == old(minimized)@.remove(i)
                &&& r == Some(
                    if listed(maximized@, s) && output_geo is Some {
                        RestorePlan { x: output_geo->0.x, y: output_geo->0.y, maximized: true }
                    } else {
                        RestorePlan { x: e.x, y: e.y, maximized: false }
                    },
                )
            },
        },
{
    let mut i: usize = 0;
    while i < minimized.len()
        invariant
            i <= minimized@.len(),
            minimized@ == old(minimized)@,
            minimized_index_in(minimized@, s, i as int) is None,
        decreases minimized@.len() - i,
    {
        if minimized[i].surface == s {
            proof {
                lemma_minimized_index(minimized@, s, i + 1, minimized@.len() as int);
            }
            let e = minimized.remove(i);
            let was_max = has_entry(maximized, s);
            return match output_geo {
                Some(g) => if was_max {
                    Some(RestorePlan { x: g.x, y: g.y, maximized: true })
                } else {
                    Some(RestorePlan { x: e.x, y: e.y, maximized: false })
                },
                None => Some(RestorePlan { x: e.x, y: e.y, maximized: false }),
            };
        }
        i += 1;
    }
    None
}

} // verus!
