//! Window bookkeeping: the most-recently-used order, the spawn order, the
//! per-state window lists (maximized, fullscreen, …), and where new, solo
//! tiled, minimized and restored windows are put.

use vstd::prelude::*;

use crate::geometry::{clamp_i32, clamp_to, div_trunc, max_i32, max_of, Rect};
use crate::snap::{fits, Insets};
use crate::switcher::index_of;

verus! {

/// `m` without `s`.
pub open spec fn drop_id(m: Seq<u64>, s: u64) -> Seq<u64> {
    m.filter(|x: u64| x != s)
}

/// `mru` without `s`, with `s` put first.
pub open spec fn spec_remember(mru: Seq<u64>, s: u64) -> Seq<u64> {
    seq![s] + drop_id(mru, s)
}

/// Make `s` the most recently used window: drop it from the list and put
/// it first.
pub fn remember_window(mru: &mut Vec<u64>, s: u64)
    ensures
        final(mru)@ == spec_remember(old(mru)@, s),
{
    let mut kept: Vec<u64> = Vec::new();
    kept.push(s);
    let mut i: usize = 0;
    while i < mru.len()
        invariant
            i <= mru@.len(),
            kept@ == seq![s] + drop_id(mru@.take(i as int), s),
        decreases mru@.len() - i,
    {
        let x = mru[i];
        proof {
            assert(mru@.take(i + 1).drop_last() =~= mru@.take(i as int));
            reveal(Seq::filter);
        }
        if x != s {
            kept.push(x);
        }
        proof {
            assert(kept@ =~= seq![s] + drop_id(mru@.take(i + 1), s));
        }
        i += 1;
    }
    proof {
        assert(mru@.take(i as int) =~= mru@);
    }
    *mru = kept;
}

/// Each window with its liveness.
pub open spec fn paired(m: Seq<u64>, alive: Seq<bool>) -> Seq<(u64, bool)> {
    Seq::new(m.len(), |i: int| (m[i], alive[i]))
}

/// The windows of `p` that are alive, in order.
pub open spec fn alive_ids(p: Seq<(u64, bool)>) -> Seq<u64> {
    p.filter(|q: (u64, bool)| q.1).map_values(|q: (u64, bool)| q.0)
}

/// Keep only the windows still alive (`alive[i]` for `mru[i]`), in order.
pub fn compact_mru(mru: &mut Vec<u64>, alive: &Vec<bool>)
    requires
        alive@.len() == old(mru)@.len(),
    ensures
        final(mru)@ == alive_ids(paired(old(mru)@, alive@)),
{
    let ghost pairs = paired(mru@, alive@);
    let mut kept: Vec<u64> = Vec::new();
    let mut i: usize = 0;
    while i < mru.len()
        invariant
            i <= mru@.len(),
            alive@.len() == mru@.len(),
            pairs == paired(mru@, alive@),
            kept@ == alive_ids(pairs.take(i as int)),
        decreases mru@.len() - i,
    {
        proof {
            assert(pairs.take(i + 1).drop_last() =~= pairs.take(i as int));
            reveal(Seq::filter);
        }
        if alive[i] {
            kept.push(mru[i]);
        }
        proof {
            assert(kept@ =~= alive_ids(pairs.take(i + 1)));
        }
        i += 1;
    }
    proof {
        assert(pairs.take(i as int) =~= pairs);
    }
    *mru = kept;
}

/// Record a window in spawn order unless it is already there.
pub fn track_spawn(order: &mut Vec<u64>, s: u64)
    ensures
        old(order)@.contains(s) ==> final(order)@ == old(order)@,
        !old(order)@.contains(s) ==> final(order)@ == old(order)@.push(s),
{
    let mut i: usize = 0;
    while i < order.len()
        invariant
            i <= order@.len(),
            forall|j: int| 0 <= j < i ==> order@[j] != s,
        decreases order@.len() - i,
    {
        if order[i] == s {
            proof {
                assert(order@[i as int] == s);
            }
            return ;
        }
        i += 1;
    }
    order.push(s);
}

/// A window tracked in a state list (maximized, fullscreen, snapped, solo
/// tiled), with the rectangle to restore it to and the rectangle it targets.
#[derive(Clone, Copy, Debug, PartialEq, Eq, Structural)]
pub struct StateEntry {
    pub surface: u64,
    pub restore: Rect,
    pub target: Rect,
}

/// Index of the first of the first `n` entries that is for `s`.
pub open spec fn entry_index_in(l: Seq<StateEntry>, s: u64, n: int) -> Option<int>
    decreases n,
{
    if n <= 0 {
        None
    } else {
        match entry_index_in(l, s, n - 1) {
            Some(i) => Some(i),
            None => if l[n - 1].surface == s {
                Some(n - 1)
            } else {
                None
            },
        }
    }
}

/// Index of the first entry for `s`.
pub open spec fn entry_index(l: Seq<StateEntry>, s: u64) -> Option<int> {
    entry_index_in(l, s, l.len() as int)
}

pub(crate) proof fn lemma_entry_index(l: Seq<StateEntry>, s: u64, n: int)
    requires
        0 <= n <= l.len(),
    ensures
        entry_index_in(l, s, n) matches Some(i) ==> 0 <= i < n && l[i].surface == s,
        entry_index_in(l, s, n) is None <==> forall|j: int| 0 <= j < n ==> l[j].surface != s,
    decreases n,
{
    if n > 0 {
        lemma_entry_index(l, s, n - 1);
    }
}

proof fn lemma_entry_prefix(l: Seq<StateEntry>, s: u64, k: int, n: int)
    requires
        0 <= k <= n,
        entry_index_in(l, s, k) is Some,
    ensures
        entry_index_in(l, s, n) == entry_index_in(l, s, k),
    decreases n - k,
{
    if n > k {
        lemma_entry_prefix(l, s, k, n - 1);
    }
}

/// Where the first entry for `s` is.
pub fn find_entry(l: &Vec<StateEntry>, s: u64) -> (r: Option<usize>)
    ensures
        r matches Some(i) ==> entry_index(l@, s) == Some(i as int) && i < l@.len(),
        r is None ==> entry_index(l@, s) is None,
{
    let mut i: usize = 0;
    while i < l.len()
        invariant
            i <= l@.len(),
            entry_index_in(l@, s, i as int) is None,
            entry_index(l@, s) == entry_index_in(l@, s, l@.len() as int),
        decreases l@.len() - i,
    {
        proof {
            lemma_entry_index(l@, s, i as int);
        }
        if l[i].surface == s {
            proof {
                assert(entry_index_in(l@, s, i + 1) == Some(i as int));
                lemma_entry_prefix(l@, s, i + 1, l@.len() as int);
            }
            return Some(i);
        }
        i += 1;
    }
    None
}

/// Whether `s` has an entry.
pub fn has_entry(l: &Vec<StateEntry>, s: u64) -> (r: bool)
    ensures
        r == exists|i: int| 0 <= i < l@.len() && l@[i].surface == s,
{
    proof {
        lemma_entry_index(l@, s, l@.len() as int);
    }
    find_entry(l, s).is_some()
}

/// The restore rectangle of `s`'s first entry.
pub fn restore_of(l: &Vec<StateEntry>, s: u64) -> (r: Option<Rect>)
    ensures
        r == match entry_index(l@, s) {
            Some(i) => Some(l@[i].restore),
            None => None::<Rect>,
        },
{
    match find_entry(l, s) {
        Some(i) => Some(l[i].restore),
        None => None,
    }
}

/// Remove `s`'s first entry and hand back its restore rectangle.
pub fn take_restore(l: &mut Vec<StateEntry>, s: u64) -> (r: Option<Rect>)
    ensures
        r == match entry_index(old(l)@, s) {
            Some(i) => Some(old(l)@[i].restore),
            None => None::<Rect>,
        },
        final(l)@ == match entry_index(old(l)@, s) {
            Some(i) => old(l)@.remove(i),
            None => old(l)@,
        },
{
    proof {
        lemma_entry_index(l@, s, l@.len() as int);
    }
    match find_entry(l, s) {
        Some(i) => {
            let e = l.remove(i);
            Some(e.restore)
        },
        None => None,
    }
}

/// `l` without the entries of `s`.
pub open spec fn without(l: Seq<StateEntry>, s: u64) -> Seq<StateEntry> {
    l.filter(|e: StateEntry| e.surface != s)
}

/// Drop every entry of `s`.
pub fn forget_entries(l: &mut Vec<StateEntry>, s: u64)
    ensures
        final(l)@ == without(old(l)@, s),
{
    let mut kept: Vec<StateEntry> = Vec::new();
    let mut i: usize = 0;
    while i < l.len()
        invariant
            i <= l@.len(),
            kept@ == without(l@.take(i as int), s),
        decreases l@.len() - i,
    {
        let e = l[i];
        proof {
            assert(l@.take(i + 1).drop_last() =~= l@.take(i as int));
            reveal(Seq::filter);
        }
        if e.surface != s {
            kept.push(e);
        }
        proof {
            assert(kept@ =~= without(l@.take(i + 1), s));
        }
        i += 1;
    }
    proof {
        assert(l@.take(i as int) =~= l@);
    }
    *l = kept;
}

/// After forgetting a window it has no entry left.
pub proof fn lemma_forget_leaves_none(l: Seq<StateEntry>, s: u64)
    ensures
        forall|i: int| 0 <= i < without(l, s).len() ==> #[trigger] without(l, s)[i].surface != s,
{
    assert forall|i: int| 0 <= i < without(l, s).len() implies #[trigger] without(l, s)[i].surface != s by {
        l.lemma_filter_pred(|e: StateEntry| e.surface != s, i);
    }
}

/// The rectangle to restore a window to when it is maximized: an explicit
/// override first; for a posed window, its Middle pose rectangle when the
/// output has one; otherwise the rectangle an animation is heading to; and
/// otherwise where the window is now.
pub open spec fn spec_pick_restore(
    restore_override: Option<Rect>,
    posed: bool,
    middle: Option<Rect>,
    anim_target: Option<Rect>,
    current: Rect,
) -> Rect {
    match restore_override {
        Some(r) => r,
        None => if posed {
            match middle {
                Some(m) => m,
                None => current,
            }
        } else {
            match anim_target {
                Some(t) => t,
                None => current,
            }
        },
    }
}

/// The pre-maximize rectangle (see [`spec_pick_restore`]).
pub fn pick_restore(
    restore_override: Option<Rect>,
    posed: bool,
    middle: Option<Rect>,
    anim_target: Option<Rect>,
    current: Rect,
) -> (r: Rect)
    ensures
        r == spec_pick_restore(restore_override, posed, middle, anim_target, current),
{
    match restore_override {
        Some(r) => r,
        None => if posed {
            match middle {
                Some(m) => m,
                None => current,
            }
        } else {
            match anim_target {
                Some(t) => t,
                None => current,
            }
        },
    }
}

/// The rectangle a window is drawn at: an in-flight state animation first,
/// then a tiling animation, then the rectangle its state asked for, then its
/// live geometry.
pub fn effective_rect(state_anim: Option<Rect>, tiling_anim: Option<Rect>, state_target: Option<Rect>, live: Rect) -> (r: Rect)
    ensures
        r == match (state_anim, tiling_anim, state_target) {
            (Some(a), _, _) => a,
            (None, Some(t), _) => t,
            (None, None, Some(s)) => s,
            (None, None, None) => live,
        },
{
    match state_anim {
        Some(a) => a,
        None => match tiling_anim {
            Some(t) => t,
            None => match state_target {
                Some(s) => s,
                None => live,
            },
        },
    }
}

/// Temporary spot of a new window: the centre of its output (the origin when
/// there is none); it is centred properly once its size is known.
pub fn placement_point(output: Option<Rect>) -> (r: (i32, i32))
    requires
        output matches Some(g) ==> fits(g.x + div_trunc(g.w as int, 2)) && fits(g.y + div_trunc(g.h as int, 2)),
    ensures
        r == match output {
            Some(g) => ((g.x + div_trunc(g.w as int, 2)) as i32, (g.y + div_trunc(g.h as int, 2)) as i32),
            None => (0i32, 0i32),
        },
{
    match output {
        Some(g) => (g.x + g.w / 2, g.y + g.h / 2),
        None => (0, 0),
    }
}

/// Centre a `w × h` window in the output's usable area (the output minus its
/// panels), then keep it inside that area (its top-left corner first).
pub open spec fn spec_center_in_usable(geo: Rect, ins: Insets, w: i32, h: i32) -> (int, int) {
    let ux = geo.x + ins.left;
    let uy = geo.y + ins.top;
    let uw = geo.w - ins.left - ins.right;
    let uh = geo.h - ins.top - ins.bottom;
    let x = ux + div_trunc(uw - w, 2);
    let y = uy + div_trunc(uh - h, 2);
    (clamp_to(x, ux, max_of(ux + uw - w, ux)), clamp_to(y, uy, max_of(uy + uh - h, uy)))
}

/// Every intermediate of [`center_in_usable`] is an `i32`.
pub open spec fn center_fits(geo: Rect, ins: Insets, w: i32, h: i32) -> bool {
    let ux = geo.x + ins.left;
    let uy = geo.y + ins.top;
    let uw = geo.w - ins.left - ins.right;
    let uh = geo.h - ins.top - ins.bottom;
    &&& fits(ux) && fits(uy)
    &&& fits(geo.w - ins.left) && fits(uw)
    &&& fits(geo.h - ins.top) && fits(uh)
    &&& fits(uw - w) && fits(uh - h)
    &&& fits(ux + div_trunc(uw - w, 2)) && fits(uy + div_trunc(uh - h, 2))
    &&& fits(ux + uw) && fits(ux + uw - w)
    &&& fits(uy + uh) && fits(uy + uh - h)
}

/// Where a newly sized window is centred (see [`spec_center_in_usable`]).
pub fn center_in_usable(geo: Rect, ins: Insets, w: i32, h: i32) -> (r: (i32, i32))
    requires
        center_fits(geo, ins, w, h),
    ensures
        r.0 == spec_center_in_usable(geo, ins, w, h).0,
        r.1 == spec_center_in_usable(geo, ins, w, h).1,
{
    let ux = geo.x + ins.left;
    let uy = geo.y + ins.top;
    let uw = geo.w - ins.left - ins.right;
    let uh = geo.h - ins.top - ins.bottom;
    let x = ux + (uw - w) / 2;
    let y = uy + (uh - h) / 2;
    let x = clamp_i32(x, ux, max_i32(ux + uw - w, ux));
    let y = clamp_i32(y, uy, max_i32(uy + uh - h, uy));
    (x, y)
}

/// The first configured size of a new window: a window rule, else the
/// client's minimum size, else the configured default, else the share of
/// the work area.
pub fn initial_size(
    rule: Option<(i32, i32)>,
    client_min: Option<(i32, i32)>,
    default_size: Option<(i32, i32)>,
    pct_size: Option<(i32, i32)>,
) -> (r: Option<(i32, i32)>)
    ensures
        r == match (rule, client_min, default_size) {
            (Some(a), _, _) => Some(a),
            (None, Some(b), _) => Some(b),
            (None, None, Some(c)) => Some(c),
            (None, None, None) => pct_size,
        },
{
    match rule {
        Some(a) => Some(a),
        None => match client_min {
            Some(b) => Some(b),
            None => match default_size {
                Some(c) => Some(c),
                None => pct_size,
            },
        },
    }
}

/// Gap between a solo-tiled window and its output's usable edges.
pub const SINGLE_WINDOW_OUTER_GAP: i32 = 40;

/// Every intermediate of [`solo_tile_target`] is an `i32`.
pub open spec fn solo_fits(geo: Rect, ins: Insets) -> bool {
    let g = SINGLE_WINDOW_OUTER_GAP as int;
    &&& fits(geo.x + ins.left) && fits(geo.x + ins.left + g)
    &&& fits(geo.y + ins.top) && fits(geo.y + ins.top + g)
    &&& fits(geo.w - ins.left) && fits(geo.w - ins.left - ins.right) && fits(geo.w - ins.left - ins.right - g * 2)
    &&& fits(geo.h - ins.top) && fits(geo.h - ins.top - ins.bottom) && fits(geo.h - ins.top - ins.bottom - g * 2)
}

/// The solo-tile rectangle: the usable area inset by the single-window gap.
pub fn solo_tile_target(geo: Rect, ins: Insets) -> (r: Rect)
    requires
        solo_fits(geo, ins),
    ensures
        r == (Rect {
            x: (geo.x + ins.left + SINGLE_WINDOW_OUTER_GAP) as i32,
            y: (geo.y + ins.top + SINGLE_WINDOW_OUTER_GAP) as i32,
            w: (geo.w - ins.left - ins.right - SINGLE_WINDOW_OUTER_GAP * 2) as i32,
            h: (geo.h - ins.top - ins.bottom - SINGLE_WINDOW_OUTER_GAP * 2) as i32,
        }),
{
    let gap = SINGLE_WINDOW_OUTER_GAP;
    Rect {
        x: geo.x + ins.left + gap,
        y: geo.y + ins.top + gap,
        w: geo.w - ins.left - ins.right - gap * 2,
        h: geo.h - ins.top - ins.bottom - gap * 2,
    }
}

/// The spot a minimizing window shrinks to: a 48px square centred
/// horizontally, 80px above the output's bottom edge.
pub open spec fn spec_minimize_target(geo: Rect) -> Rect {
    let cx = geo.x + div_trunc(geo.w as int, 2);
    let cy = geo.y + geo.h - 80;
    Rect { x: (cx - 24) as i32, y: (cy - 24) as i32, w: 48, h: 48 }
}

/// The minimize target's arithmetic stays within `i32`.
pub open spec fn minimize_fits(geo: Rect) -> bool {
    &&& fits(geo.x + div_trunc(geo.w as int, 2))
    &&& fits(geo.x + div_trunc(geo.w as int, 2) - 24)
    &&& fits(geo.y + geo.h)
    &&& fits(geo.y + geo.h - 80)
    &&& fits(geo.y + geo.h - 104)
}

/// The spot a minimizing window shrinks to (see [`spec_minimize_target`]).
pub fn minimize_target_in_output(geo: Rect) -> (r: Rect)
    requires
        minimize_fits(geo),
    ensures
        r == spec_minimize_target(geo),
{
    let icon_size: i32 = 48;
    let bottom_margin: i32 = 80;
    let cx = geo.x + geo.w / 2;
    let cy = geo.y + geo.h - bottom_margin;
    Rect { x: cx - icon_size / 2, y: cy - icon_size / 2, w: icon_size, h: icon_size }
}

/// The output a point lies on (the first containing it), else the first
/// output, else a 1920×1080 stand-in at the origin.
pub open spec fn spec_output_at(outputs: Seq<Rect>, px: i32, py: i32) -> Rect {
    if exists|i: int| 0 <= i < outputs.len() && outputs[i].spec_contains(px, py) {
        outputs[choose|i: int|
            0 <= i < outputs.len() && outputs[i].spec_contains(px, py) && forall|j: int|
                0 <= j < i ==> !outputs[j].spec_contains(px, py)]
    } else if outputs.len() > 0 {
        outputs[0]
    } else {
        Rect { x: 0, y: 0, w: 1920, h: 1080 }
    }
}

/// The output geometry a point lies on (see [`spec_output_at`]).
pub fn output_at(outputs: &Vec<Rect>, px: i32, py: i32) -> (r: Rect)
    ensures
        r == spec_output_at(outputs@, px, py),
{
    let mut i: usize = 0;
    while i < outputs.len()
        invariant
            i <= outputs@.len(),
            forall|j: int| 0 <= j < i ==> !outputs@[j].spec_contains(px, py),
        decreases outputs@.len() - i,
    {
        if outputs[i].contains(px, py) {
            proof {
                let k = choose|k: int|
                    0 <= k < outputs@.len() && outputs@[k].spec_contains(px, py) && forall|j: int|
                        0 <= j < k ==> !outputs@[j].spec_contains(px, py);
                assert(0 <= k < outputs@.len() && outputs@[k].spec_contains(px, py));
                if k < i {
                    assert(!outputs@[k].spec_contains(px, py));
                }
                if (i as int) < k {
                    assert(!outputs@[i as int].spec_contains(px, py));
                }
            }
            return outputs[i];
        }
        i += 1;
    }
    if outputs.len() > 0 {
        outputs[0]
    } else {
        Rect { x: 0, y: 0, w: 1920, h: 1080 }
    }
}

/// The tiling area of an output: the usable area inset by the outer gap, or
/// by the wider single-window gap when the tree holds exactly one window.
pub open spec fn spec_tiling_area(geo: Rect, ins: Insets, leaf_count: int, outer_gap: i32) -> Rect {
    let g = if leaf_count == 1 {
        SINGLE_WINDOW_OUTER_GAP as int
    } else {
        outer_gap as int
    };
    Rect {
        x: (geo.x + ins.left + g) as i32,
        y: (geo.y + ins.top + g) as i32,
        w: (geo.w - (ins.left + ins.right) - g * 2) as i32,
        h: (geo.h - (ins.top + ins.bottom) - g * 2) as i32,
    }
}

/// Insetting the usable area by `g` stays within `i32`.
pub open spec fn inset_fits(geo: Rect, ins: Insets, g: int) -> bool {
    &&& fits(geo.x + ins.left) && fits(geo.x + ins.left + g)
    &&& fits(geo.y + ins.top) && fits(geo.y + ins.top + g)
    &&& fits(ins.left + ins.right) && fits(ins.top + ins.bottom)
    &&& fits(geo.w - (ins.left + ins.right)) && fits(geo.h - (ins.top + ins.bottom))
    &&& fits(g * 2)
    &&& fits(geo.w - (ins.left + ins.right) - g * 2) && fits(geo.h - (ins.top + ins.bottom) - g * 2)
}

/// The tiling area's arithmetic stays within `i32`, whichever gap applies.
pub open spec fn tiling_area_fits(geo: Rect, ins: Insets, outer_gap: i32) -> bool {
    inset_fits(geo, ins, SINGLE_WINDOW_OUTER_GAP as int) && inset_fits(geo, ins, outer_gap as int)
}

/// The tiling area of an output (see [`spec_tiling_area`]).
pub fn tiling_area(geo: Rect, ins: Insets, leaf_count: usize, outer_gap: i32) -> (r: Rect)
    requires
        tiling_area_fits(geo, ins, outer_gap),
    ensures
        r == spec_tiling_area(geo, ins, leaf_count as int, outer_gap),
{
    let gap = if leaf_count == 1 {
        SINGLE_WINDOW_OUTER_GAP
    } else {
        outer_gap
    };
    assert(gap == SINGLE_WINDOW_OUTER_GAP || gap == outer_gap);
    let x = geo.x + ins.left;
    let y = geo.y + ins.top;
    let w = geo.w - (ins.left + ins.right);
    let h = geo.h - (ins.top + ins.bottom);
    Rect { x: x + gap, y: y + gap, w: w - gap * 2, h: h - gap * 2 }
}

/// Once `f` is found among the first `n` entries, looking further finds
/// the same entry.
proof fn lemma_index_of_stays(s: Seq<u64>, f: u64, n: int, m: int)
    requires
        0 <= n <= m,
        index_of(s, f, n) is Some,
    ensures
        index_of(s, f, m) == index_of(s, f, n),
    decreases m - n,
{
    if m > n {
        lemma_index_of_stays(s, f, n, m - 1);
    }
}

/// Position of the first `f` in `s` (see [`index_of`]).
pub fn position_of(s: &Vec<u64>, f: u64) -> (r: Option<usize>)
    ensures
        match r {
            Some(i) => index_of(s@, f, s@.len() as int) == Some(i as int),
            None => index_of(s@, f, s@.len() as int) is None,
        },
{
    let mut i: usize = 0;
    while i < s.len()
        invariant
            i <= s@.len(),
            index_of(s@, f, i as int) is None,
        decreases s@.len() - i,
    {
        if s[i] == f {
            proof {
                lemma_index_of_stays(s@, f, i + 1, s@.len() as int);
            }
            return Some(i);
        }
        i += 1;
    }
    None
}

/// The round-robin cycle: the mapped windows in stacking order, then the
/// first `n` minimized ones that are not already in it.
pub open spec fn spec_cycle_list(mapped: Seq<u64>, minimized: Seq<u64>, n: int) -> Seq<u64>
    decreases n,
{
    if n <= 0 {
        mapped
    } else {
        let l = spec_cycle_list(mapped, minimized, n - 1);
        if index_of(l, minimized[n - 1], l.len() as int) is Some {
            l
        } else {
            l.push(minimized[n - 1])
        }
    }
}

proof fn lemma_cycle_list_len(mapped: Seq<u64>, minimized: Seq<u64>, n: int)
    requires
        0 <= n,
    ensures
        spec_cycle_list(mapped, minimized, n).len() <= mapped.len() + n,
    decreases n,
{
    if n > 0 {
        lemma_cycle_list_len(mapped, minimized, n - 1);
    }
}

/// The windows round-robin cycling goes through: mapped ones, then
/// minimized ones (see [`spec_cycle_list`]).
pub fn cycle_list(mapped: &Vec<u64>, minimized: &Vec<u64>) -> (r: Vec<u64>)
    requires
        mapped@.len() + minimized@.len() <= usize::MAX,
    ensures
        r@ == spec_cycle_list(mapped@, minimized@, minimized@.len() as int),
{
    let mut all: Vec<u64> = mapped.clone();
    let mut i: usize = 0;
    while i < minimized.len()
        invariant
            i <= minimized@.len(),
            mapped@.len() + minimized@.len() <= usize::MAX,
            all@ == spec_cycle_list(mapped@, minimized@, i as int),
        decreases minimized@.len() - i,
    {
        proof {
            lemma_cycle_list_len(mapped@, minimized@, i as int);
        }
        let m = minimized[i];
        if position_of(&all, m).is_none() {
            all.push(m);
        }
        i += 1;
    }
    all
}

/// The window after the focused one in the cycle `l` (the first one when
/// the focus is elsewhere); none when there are fewer than two windows.
pub open spec fn spec_cycle_next(l: Seq<u64>, focused: Option<u64>) -> Option<u64> {
    if l.len() < 2 {
        None
    } else {
        let idx = match focused {
            Some(f) => index_of(l, f, l.len() as int),
            None => None,
        };
        match idx {
            Some(i) => Some(l[(i + 1) % (l.len() as int)]),
            None => Some(l[0]),
        }
    }
}

proof fn lemma_index_of_range(s: Seq<u64>, f: u64, n: int)
    requires
        0 <= n,
    ensures
        index_of(s, f, n) matches Some(i) ==> 0 <= i < n,
    decreases n,
{
    if n > 0 {
        lemma_index_of_range(s, f, n - 1);
    }
}

/// The window round-robin cycling moves to (see [`spec_cycle_next`]).
pub fn cycle_next(l: &Vec<u64>, focused: Option<u64>) -> (r: Option<u64>)
    ensures
        r == spec_cycle_next(l@, focused),
{
    if l.len() < 2 {
        return None;
    }
    let idx = match focused {
        Some(f) => position_of(l, f),
        None => None,
    };
    match idx {
        Some(i) => {
            proof {
                lemma_index_of_range(l@, focused->0, l@.len() as int);
            }
            Some(l[(i + 1) % l.len()])
        },
        None => Some(l[0]),
    }
}

/// Round-robin cycling, minimized windows included: the window to focus
/// next after the focused one, given the mapped windows in stacking order
/// and the minimized ones (see [`spec_cycle_list`] and [`spec_cycle_next`]);
/// none with fewer than two windows.
pub fn cycle_next_window(mapped: &Vec<u64>, minimized: &Vec<u64>, focused: Option<u64>) -> (r: Option<u64>)
    requires
        mapped@.len() + minimized@.len() <= usize::MAX,
    ensures
        r == spec_cycle_next(spec_cycle_list(mapped@, minimized@, minimized@.len() as int), focused),
{
    let all = cycle_list(mapped, minimized);
    cycle_next(&all, focused)
}

/// Foreign-toplevel state: maximized.
pub const STATE_MAXIMIZED: u32 = 0;

/// Foreign-toplevel state: minimized.
pub const STATE_MINIMIZED: u32 = 1;

/// Foreign-toplevel state: activated (focused).
pub const STATE_ACTIVATED: u32 = 2;

/// Foreign-toplevel state: fullscreen.
pub const STATE_FULLSCREEN: u32 = 3;

/// `seq![v]` when `b`, else nothing.
pub open spec fn flag(b: bool, v: u32) -> Seq<u32> {
    if b {
        seq![v]
    } else {
        Seq::empty()
    }
}

/// The state flags advertised for a window, in protocol order; a minimized
/// window is not advertised as maximized (the bar docks by that flag).
pub open spec fn spec_toplevel_states(maximized: bool, minimized: bool, activated: bool, fullscreen: bool) -> Seq<u32> {
    flag(maximized && !minimized, STATE_MAXIMIZED) + flag(minimized, STATE_MINIMIZED) + flag(activated, STATE_ACTIVATED)
        + flag(fullscreen, STATE_FULLSCREEN)
}

/// The foreign-toplevel state flags of a window (see
/// [`spec_toplevel_states`]).
pub fn toplevel_states(maximized: bool, minimized: bool, activated: bool, fullscreen: bool) -> (r: Vec<u32>)
    ensures
        r@ == spec_toplevel_states(maximized, minimized, activated, fullscreen),
{
    let mut states: Vec<u32> = Vec::new();
    if maximized && !minimized {
        states.push(STATE_MAXIMIZED);
    }
    if minimized {
        states.push(STATE_MINIMIZED);
    }
    if activated {
        states.push(STATE_ACTIVATED);
    }
    if fullscreen {
        states.push(STATE_FULLSCREEN);
    }
    assert(states@ =~= spec_toplevel_states(maximized, minimized, activated, fullscreen));
    states
}

} // verus!
