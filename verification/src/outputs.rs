//! Output-level bookkeeping: space reserved by panels (exclusive zones), the
//! bounding box of all outputs, and the desktop panel rotation.

use vstd::prelude::*;

use crate::geometry::{div_trunc, max_of, min_of, Rect};
use crate::snap::{fits, Insets};
use crate::text::{range, range_is, to_chars, trim, trim_range};

verus! {

/// A layer surface that reserves an exclusive zone: its anchors, the zone
/// and its margins.
#[derive(Clone, Copy, Debug, PartialEq, Eq, Structural)]
pub struct LayerZone {
    pub anchor_top: bool,
    pub anchor_bottom: bool,
    pub anchor_left: bool,
    pub anchor_right: bool,
    pub zone: i32,
    pub margin_top: i32,
    pub margin_bottom: i32,
    pub margin_left: i32,
    pub margin_right: i32,
}

/// The exclusive zones of the first `n` layers, folded into per-side insets:
/// a layer anchored to exactly one of top/bottom (else one of left/right)
/// reserves its zone plus that side's margin; each side keeps the largest.
pub open spec fn zone_offsets(zs: Seq<LayerZone>, n: int) -> (int, int, int, int)
    decreases n,
{
    if n <= 0 {
        (0, 0, 0, 0)
    } else {
        let (t, b, l, r) = zone_offsets(zs, n - 1);
        let z = zs[n - 1];
        if z.anchor_top && !z.anchor_bottom {
            (max_of(t, z.zone + z.margin_top), b, l, r)
        } else if z.anchor_bottom && !z.anchor_top {
            (t, max_of(b, z.zone + z.margin_bottom), l, r)
        } else if z.anchor_left && !z.anchor_right {
            (t, b, max_of(l, z.zone + z.margin_left), r)
        } else if z.anchor_right && !z.anchor_left {
            (t, b, l, max_of(r, z.zone + z.margin_right))
        } else {
            (t, b, l, r)
        }
    }
}

/// Each layer's zone plus margin is an `i32`.
pub open spec fn zones_fit(zs: Seq<LayerZone>) -> bool {
    forall|i: int|
        0 <= i < zs.len() ==> {
            let z = #[trigger] zs[i];
            fits(z.zone + z.margin_top) && fits(z.zone + z.margin_bottom) && fits(z.zone + z.margin_left)
                && fits(z.zone + z.margin_right)
        }
}

/// The insets reserved on an output by its layers' exclusive zones (see
/// [`zone_offsets`]).
pub fn exclusive_zone_offsets(zs: &Vec<LayerZone>) -> (r: Insets)
    requires
        zones_fit(zs@),
    ensures
        r.top == zone_offsets(zs@, zs@.len() as int).0,
        r.bottom == zone_offsets(zs@, zs@.len() as int).1,
        r.left == zone_offsets(zs@, zs@.len() as int).2,
        r.right == zone_offsets(zs@, zs@.len() as int).3,
{
    let mut top: i32 = 0;
    let mut bottom: i32 = 0;
    let mut left: i32 = 0;
    let mut right: i32 = 0;
    let mut i: usize = 0;
    while i < zs.len()
        invariant
            i <= zs@.len(),
            zones_fit(zs@),
            (top as int, bottom as int, left as int, right as int) == zone_offsets(zs@, i as int),
        decreases zs@.len() - i,
    {
        let z = zs[i];
        proof {
            assert(zs@[i as int] == z);
        }
        if z.anchor_top && !z.anchor_bottom {
            top = crate::geometry::max_i32(top, z.zone + z.margin_top);
        } else if z.anchor_bottom && !z.anchor_top {
            bottom = crate::geometry::max_i32(bottom, z.zone + z.margin_bottom);
        } else if z.anchor_left && !z.anchor_right {
            left = crate::geometry::max_i32(left, z.zone + z.margin_left);
        } else if z.anchor_right && !z.anchor_left {
            right = crate::geometry::max_i32(right, z.zone + z.margin_right);
        }
        i += 1;
    }
    Insets { top, bottom, left, right }
}

/// The reserved insets only grow as layers are added.
pub proof fn lemma_offsets_monotone(zs: Seq<LayerZone>, n: int)
    requires
        0 < n,
    ensures
        zone_offsets(zs, n - 1).0 <= zone_offsets(zs, n).0,
        zone_offsets(zs, n - 1).1 <= zone_offsets(zs, n).1,
        zone_offsets(zs, n - 1).2 <= zone_offsets(zs, n).2,
        zone_offsets(zs, n - 1).3 <= zone_offsets(zs, n).3,
{
}

/// Smallest left edge, smallest top edge, largest right edge and largest
/// bottom edge among the first `n` rectangles (starting from the extremes
/// of `i32`).
pub open spec fn extent(g: Seq<Rect>, n: int) -> (int, int, int, int)
    decreases n,
{
    if n <= 0 {
        (i32::MAX as int, i32::MAX as int, i32::MIN as int, i32::MIN as int)
    } else {
        let (x0, y0, x1, y1) = extent(g, n - 1);
        let r = g[n - 1];
        (min_of(x0, r.x as int), min_of(y0, r.y as int), max_of(x1, r.x + r.w), max_of(y1, r.y + r.h))
    }
}

/// The bounding box of all outputs; the empty rectangle when there are none.
pub open spec fn spec_total_bounds(g: Seq<Rect>) -> Rect {
    if g.len() == 0 {
        Rect { x: 0, y: 0, w: 0, h: 0 }
    } else {
        let (x0, y0, x1, y1) = extent(g, g.len() as int);
        Rect { x: x0 as i32, y: y0 as i32, w: (x1 - x0) as i32, h: (y1 - y0) as i32 }
    }
}

/// Every edge and the bounding box's size are `i32`s.
pub open spec fn bounds_fit(g: Seq<Rect>) -> bool {
    &&& forall|i: int| 0 <= i < g.len() ==> fits(#[trigger] g[i].x + g[i].w) && fits(g[i].y + g[i].h)
    &&& fits(extent(g, g.len() as int).2 - extent(g, g.len() as int).0)
    &&& fits(extent(g, g.len() as int).3 - extent(g, g.len() as int).1)
}

/// The bounding box of all outputs (see [`spec_total_bounds`]).
pub fn total_output_bounds(g: &Vec<Rect>) -> (r: Rect)
    requires
        bounds_fit(g@),
    ensures
        r == spec_total_bounds(g@),
{
    let mut min_x = i32::MAX;
    let mut min_y = i32::MAX;
    let mut max_x = i32::MIN;
    let mut max_y = i32::MIN;
    let mut i: usize = 0;
    while i < g.len()
        invariant
            i <= g@.len(),
            forall|j: int| 0 <= j < g@.len() ==> fits(#[trigger] g@[j].x + g@[j].w) && fits(g@[j].y + g@[j].h),
            (min_x as int, min_y as int, max_x as int, max_y as int) == extent(g@, i as int),
        decreases g@.len() - i,
    {
        let r = g[i];
        proof {
            assert(g@[i as int] == r);
            assert(fits(g@[i as int].x + g@[i as int].w));
        }
        min_x = crate::geometry::min_i32(min_x, r.x);
        min_y = crate::geometry::min_i32(min_y, r.y);
        max_x = crate::geometry::max_i32(max_x, r.x + r.w);
        max_y = crate::geometry::max_i32(max_y, r.y + r.h);
        i += 1;
    }
    if g.len() == 0 {
        return Rect { x: 0, y: 0, w: 0, h: 0 };
    }
    Rect { x: min_x, y: min_y, w: max_x - min_x, h: max_y - min_y }
}

/// Index of the desktop panel named by the (trimmed) `current` text among
/// home, terminal and files (0 when it names none), and the index after it.
pub open spec fn spec_next_panel(current: Seq<char>) -> (int, int) {
    let t = trim(current);
    let idx = if t == "home"@ {
        0
    } else if t == "terminal"@ {
        1
    } else if t == "files"@ {
        2
    } else {
        0
    };
    (idx, (idx + 1) % 3)
}

/// The desktop panels in rotation order.
pub fn panel_name(i: usize) -> (r: &'static str)
    requires
        i < 3,
    ensures
        i == 0 ==> r@ == "home"@,
        i == 1 ==> r@ == "terminal"@,
        i == 2 ==> r@ == "files"@,
{
    if i == 0 {
        "home"
    } else if i == 1 {
        "terminal"
    } else {
        "files"
    }
}

/// The current desktop panel and the next one in the rotation (see
/// [`spec_next_panel`]).
pub fn next_desktop_panel(current: &str) -> (r: (usize, usize))
    ensures
        r.0 == spec_next_panel(current@).0,
        r.1 == spec_next_panel(current@).1,
{
    let cs = to_chars(current);
    let (a, b) = trim_range(&cs, 0, cs.len());
    proof {
        assert(range(cs@, 0, cs@.len() as int) =~= cs@);
    }
    let idx: usize = if range_is(&cs, a, b, "home") {
        0
    } else if range_is(&cs, a, b, "terminal") {
        1
    } else if range_is(&cs, a, b, "files") {
        2
    } else {
        0
    };
    (idx, (idx + 1) % 3)
}

/// Whether the point lies in `r` (right and bottom edges excluded), the
/// edges taken exactly.
pub open spec fn holds_point(r: Rect, px: int, py: int) -> bool {
    r.x <= px < r.x + r.w && r.y <= py < r.y + r.h
}

/// Every output's centre (rounded toward the origin) is an `i32`.
pub open spec fn centers_fit(g: Seq<Rect>) -> bool {
    forall|i: int|
        0 <= i < g.len() ==> fits(#[trigger] g[i].x + div_trunc(g[i].w as int, 2)) && fits(
            g[i].y + div_trunc(g[i].h as int, 2),
        )
}

/// Squared distance from a point to the center of `r` (the center rounded
/// toward the origin).
pub open spec fn center_dist2(r: Rect, px: int, py: int) -> int {
    let dx = px - (r.x + div_trunc(r.w as int, 2));
    let dy = py - (r.y + div_trunc(r.h as int, 2));
    dx * dx + dy * dy
}

/// The first of the first `n` outputs containing the point.
pub open spec fn first_containing(g: Seq<Rect>, px: int, py: int, n: int) -> Option<int>
    decreases n,
{
    if n <= 0 {
        None
    } else {
        match first_containing(g, px, py, n - 1) {
            Some(i) => Some(i),
            None => if holds_point(g[n - 1], px, py) {
                Some(n - 1)
            } else {
                None
            },
        }
    }
}

/// The first of the first `n` outputs whose center is nearest the point.
pub open spec fn nearest_center(g: Seq<Rect>, px: int, py: int, n: int) -> Option<int>
    decreases n,
{
    if n <= 0 {
        None
    } else {
        match nearest_center(g, px, py, n - 1) {
            None => Some(n - 1),
            Some(b) => if center_dist2(g[n - 1], px, py) < center_dist2(g[b], px, py) {
                Some(n - 1)
            } else {
                Some(b)
            },
        }
    }
}

/// The output a point lies on: the first containing it, else the one whose
/// center is nearest; none without outputs.
pub open spec fn spec_output_at_point(g: Seq<Rect>, px: int, py: int) -> Option<int> {
    match first_containing(g, px, py, g.len() as int) {
        Some(i) => Some(i),
        None => nearest_center(g, px, py, g.len() as int),
    }
}

proof fn lemma_first_containing_range(g: Seq<Rect>, px: int, py: int, n: int)
    requires
        0 <= n,
    ensures
        first_containing(g, px, py, n) matches Some(i) ==> 0 <= i < n,
    decreases n,
{
    if n > 0 {
        lemma_first_containing_range(g, px, py, n - 1);
    }
}

proof fn lemma_nearest_range(g: Seq<Rect>, px: int, py: int, n: int)
    requires
        0 <= n,
    ensures
        n > 0 ==> (nearest_center(g, px, py, n) matches Some(i) && 0 <= i < n),
    decreases n,
{
    if n > 0 {
        lemma_nearest_range(g, px, py, n - 1);
    }
}

proof fn lemma_first_containing_stays(g: Seq<Rect>, px: int, py: int, n: int, m: int)
    requires
        0 <= n <= m,
        first_containing(g, px, py, n) is Some,
    ensures
        first_containing(g, px, py, m) == first_containing(g, px, py, n),
    decreases m - n,
{
    if m > n {
        lemma_first_containing_stays(g, px, py, n, m - 1);
    }
}

/// `|d|` as an unsigned number.
fn abs_wide(d: i128) -> (r: u128)
    requires
        d > i128::MIN,
    ensures
        r == if d < 0 {
            -d
        } else {
            d as int
        },
{
    if d < 0 {
        (-d) as u128
    } else {
        d as u128
    }
}

/// Squared distance from the point to the center of `r` (see
/// [`center_dist2`]), exact for every point.
fn center_distance(r: Rect, px: i64, py: i64) -> (d: u128)
    requires
        fits(r.x + div_trunc(r.w as int, 2)),
        fits(r.y + div_trunc(r.h as int, 2)),
    ensures
        d == center_dist2(r, px as int, py as int),
{
    let cx = r.x + r.w / 2;
    let cy = r.y + r.h / 2;
    let ax = abs_wide(px as i128 - cx as i128);
    let ay = abs_wide(py as i128 - cy as i128);
    let ghost b: int = 0x8000_0000_8000_0000;
    assert(ax <= b && ay <= b);
    assert(ax * ax <= b * b && ay * ay <= b * b) by (nonlinear_arith)
        requires
            0 <= ax <= b,
            0 <= ay <= b,
    ;
    assert(b * b + b * b < 0x1_0000_0000_0000_0000_0000_0000_0000_0000) by (nonlinear_arith)
        requires
            b == 0x8000_0000_8000_0000,
    ;
    assert((px - cx) * (px - cx) == ax * ax && (py - cy) * (py - cy) == ay * ay) by (nonlinear_arith)
        requires
            ax == (if px - cx < 0 { -(px - cx) } else { px - cx }),
            ay == (if py - cy < 0 { -(py - cy) } else { py - cy }),
    ;
    ax * ax + ay * ay
}

/// The index of the output a point lies on (see [`spec_output_at_point`]).
pub fn output_at_point(g: &Vec<Rect>, px: i64, py: i64) -> (r: Option<usize>)
    requires
        centers_fit(g@),
    ensures
        match r {
            Some(i) => spec_output_at_point(g@, px as int, py as int) == Some(i as int),
            None => spec_output_at_point(g@, px as int, py as int) is None,
        },
{
    let mut i: usize = 0;
    while i < g.len()
        invariant
            i <= g@.len(),
            first_containing(g@, px as int, py as int, i as int) is None,
        decreases g@.len() - i,
    {
        let o = g[i];
        if o.x as i64 <= px && px < o.x as i64 + o.w as i64 && o.y as i64 <= py && py < o.y as i64 + o.h as i64 {
            proof {
                lemma_first_containing_stays(g@, px as int, py as int, i + 1, g@.len() as int);
            }
            return Some(i);
        }
        i += 1;
    }
    if g.len() == 0 {
        return None;
    }
    let mut best: usize = 0;
    assert(fits(g@[0].x + div_trunc(g@[0].w as int, 2)));
    let mut best_d: u128 = center_distance(g[0], px, py);
    assert(nearest_center(g@, px as int, py as int, 0) is None);
    let mut j: usize = 1;
    while j < g.len()
        invariant
            1 <= j <= g@.len(),
            centers_fit(g@),
            nearest_center(g@, px as int, py as int, j as int) == Some(best as int),
            best < j,
            best_d == center_dist2(g@[best as int], px as int, py as int),
        decreases g@.len() - j,
    {
        assert(fits(g@[j as int].x + div_trunc(g@[j as int].w as int, 2)));
        let d = center_distance(g[j], px, py);
        if d < best_d {
            best = j;
            best_d = d;
        }
        j += 1;
    }
    Some(best)
}

/// Whether a fullscreen window sits on output `out`: the point just inside
/// the top-left corner of its target (the output geometry captured when it
/// went fullscreen) lies on that output.
pub open spec fn spec_has_fullscreen(g: Seq<Rect>, targets: Seq<Rect>, out: int) -> bool {
    exists|k: int|
        0 <= k < targets.len() && spec_output_at_point(g, (#[trigger] targets[k]).x + 1, targets[k].y + 1)
            == Some(out)
}

/// Whether any fullscreen window sits on output `out` (see
/// [`spec_has_fullscreen`]).
pub fn output_has_fullscreen(g: &Vec<Rect>, targets: &Vec<Rect>, out: usize) -> (r: bool)
    requires
        centers_fit(g@),
    ensures
        r == spec_has_fullscreen(g@, targets@, out as int),
{
    let mut k: usize = 0;
    while k < targets.len()
        invariant
            k <= targets@.len(),
            centers_fit(g@),
            forall|m: int|
                0 <= m < k ==> spec_output_at_point(g@, (#[trigger] targets@[m]).x + 1, targets@[m].y + 1)
                    != Some(out as int),
        decreases targets@.len() - k,
    {
        let t = targets[k];
        let hit = output_at_point(g, t.x as i64 + 1, t.y as i64 + 1);
        if let Some(o) = hit {
            if o == out {
                return true;
            }
        }
        k += 1;
    }
    false
}

/// Whether a fullscreen window whose current top-left corner is known lies
/// on output `out` (a window without a location owns no output).
pub open spec fn spec_fullscreen_on(g: Seq<Rect>, locs: Seq<Option<(i32, i32)>>, out: int) -> bool {
    exists|k: int|
        0 <= k < locs.len() && (#[trigger] locs[k] matches Some(l) && spec_output_at_point(g, l.0 as int, l.1 as int)
            == Some(out))
}

/// Whether a fullscreen window owns output `out`, judged by where each
/// fullscreen window is now (see [`spec_fullscreen_on`]).
pub fn fullscreen_on_output(g: &Vec<Rect>, locs: &Vec<Option<(i32, i32)>>, out: usize) -> (r: bool)
    requires
        centers_fit(g@),
    ensures
        r == spec_fullscreen_on(g@, locs@, out as int),
{
    let mut k: usize = 0;
    while k < locs.len()
        invariant
            k <= locs@.len(),
            centers_fit(g@),
            forall|m: int|
                0 <= m < k ==> !(#[trigger] locs@[m] matches Some(l) && spec_output_at_point(g@, l.0 as int, l.1 as int)
                    == Some(out as int)),
        decreases locs@.len() - k,
    {
        if let Some(l) = locs[k] {
            if let Some(o) = output_at_point(g, l.0 as i64, l.1 as i64) {
                if o == out {
                    return true;
                }
            }
        }
        k += 1;
    }
    false
}

/// The exclusive zones of the first `n` other layers, summed per side for
/// sizing a neutral layer surface: a layer anchored to exactly one of
/// bottom/top (else one of left/right) adds its zone to that side.
pub open spec fn side_sums(zs: Seq<LayerZone>, n: int) -> (int, int, int, int)
    decreases n,
{
    if n <= 0 {
        (0, 0, 0, 0)
    } else {
        let (t, b, l, r) = side_sums(zs, n - 1);
        let z = zs[n - 1];
        if z.anchor_bottom && !z.anchor_top {
            (t, b + z.zone, l, r)
        } else if z.anchor_top && !z.anchor_bottom {
            (t + z.zone, b, l, r)
        } else if z.anchor_left && !z.anchor_right {
            (t, b, l + z.zone, r)
        } else if z.anchor_right && !z.anchor_left {
            (t, b, l, r + z.zone)
        } else {
            (t, b, l, r)
        }
    }
}

/// Every partial sum of [`side_sums`] is an `i32`.
pub open spec fn side_sums_fit(zs: Seq<LayerZone>) -> bool {
    forall|n: int|
        0 <= n <= zs.len() ==> fits((#[trigger] side_sums(zs, n)).0) && fits(side_sums(zs, n).1) && fits(
            side_sums(zs, n).2,
        ) && fits(side_sums(zs, n).3)
}

/// A layer surface being configured after its output changed: its
/// anchors, requested size (0 = stretch along an anchored axis), margins,
/// and whether its own exclusive zone is neutral (it then avoids the
/// others' zones).
#[derive(Clone, Copy, Debug, PartialEq, Eq, Structural)]
pub struct LayerSizing {
    pub anchor_top: bool,
    pub anchor_bottom: bool,
    pub anchor_left: bool,
    pub anchor_right: bool,
    pub width: i32,
    pub height: i32,
    pub margin_top: i32,
    pub margin_bottom: i32,
    pub margin_left: i32,
    pub margin_right: i32,
    pub neutral: bool,
}

/// The zones a layer avoids: the others' sums when it is neutral, none
/// otherwise.
pub open spec fn avoided(own: LayerSizing, others: Seq<LayerZone>) -> (int, int, int, int) {
    if own.neutral {
        side_sums(others, others.len() as int)
    } else {
        (0, 0, 0, 0)
    }
}

/// The size sent to a layer surface on an output of `out_w × out_h`: along
/// an axis it is anchored to at both ends with a requested size of 0, the
/// output's extent less its margins and the avoided zones; otherwise what
/// it asked for.
pub open spec fn spec_layer_size(own: LayerSizing, others: Seq<LayerZone>, out_w: int, out_h: int) -> (int, int) {
    let (t, b, l, r) = avoided(own, others);
    let w = if own.anchor_left && own.anchor_right && own.width == 0 {
        out_w - own.margin_left - own.margin_right - l - r
    } else {
        own.width as int
    };
    let h = if own.anchor_top && own.anchor_bottom && own.height == 0 {
        out_h - own.margin_top - own.margin_bottom - t - b
    } else {
        own.height as int
    };
    (w, h)
}

/// The subtractions of [`spec_layer_size`] stay within `i32`.
pub open spec fn layer_size_fits(own: LayerSizing, others: Seq<LayerZone>, out_w: int, out_h: int) -> bool {
    let (t, b, l, r) = avoided(own, others);
    &&& fits(out_w - own.margin_left)
    &&& fits(out_w - own.margin_left - own.margin_right)
    &&& fits(out_w - own.margin_left - own.margin_right - l)
    &&& fits(out_w - own.margin_left - own.margin_right - l - r)
    &&& fits(out_h - own.margin_top)
    &&& fits(out_h - own.margin_top - own.margin_bottom)
    &&& fits(out_h - own.margin_top - own.margin_bottom - t)
    &&& fits(out_h - own.margin_top - own.margin_bottom - t - b)
}

/// The size to configure a layer surface with after its output changed
/// (see [`spec_layer_size`]); `others` are the other layers on the output
/// that reserve an exclusive zone.
pub fn layer_surface_size(own: LayerSizing, others: &Vec<LayerZone>, out_w: i32, out_h: i32) -> (r: (i32, i32))
    requires
        side_sums_fit(others@),
        layer_size_fits(own, others@, out_w as int, out_h as int),
    ensures
        (r.0 as int, r.1 as int) == spec_layer_size(own, others@, out_w as int, out_h as int),
{
    let mut t: i32 = 0;
    let mut b: i32 = 0;
    let mut l: i32 = 0;
    let mut rt: i32 = 0;
    if own.neutral {
        let mut i: usize = 0;
        while i < others.len()
            invariant
                i <= others@.len(),
                side_sums_fit(others@),
                (t as int, b as int, l as int, rt as int) == side_sums(others@, i as int),
            decreases others@.len() - i,
        {
            let z = others[i];
            assert(fits(side_sums(others@, i + 1).0));
            if z.anchor_bottom && !z.anchor_top {
                b = b + z.zone;
            } else if z.anchor_top && !z.anchor_bottom {
                t = t + z.zone;
            } else if z.anchor_left && !z.anchor_right {
                l = l + z.zone;
            } else if z.anchor_right && !z.anchor_left {
                rt = rt + z.zone;
            }
            i += 1;
        }
    }
    let w = if own.anchor_left && own.anchor_right && own.width == 0 {
        out_w - own.margin_left - own.margin_right - l - rt
    } else {
        own.width
    };
    let h = if own.anchor_top && own.anchor_bottom && own.height == 0 {
        out_h - own.margin_top - own.margin_bottom - t - b
    } else {
        own.height
    };
    (w, h)
}

/// A display mode a connector offers: its size, refresh rate (Hz) and
/// whether the display marks it preferred.
#[derive(Clone, Copy, Debug, PartialEq, Eq, Structural)]
pub struct ModeInfo {
    pub w: u16,
    pub h: u16,
    pub refresh: u32,
    pub preferred: bool,
}

/// The first preferred mode among the first `n`.
pub open spec fn first_preferred(modes: Seq<ModeInfo>, n: int) -> Option<int>
    decreases n,
{
    if n <= 0 {
        None
    } else {
        match first_preferred(modes, n - 1) {
            Some(i) => Some(i),
            None => if modes[n - 1].preferred {
                Some(n - 1)
            } else {
                None
            },
        }
    }
}

/// The index of the preferred mode: the first marked preferred, else the
/// first mode.
pub open spec fn preferred_idx(modes: Seq<ModeInfo>) -> int {
    match first_preferred(modes, modes.len() as int) {
        Some(i) => i,
        None => 0,
    }
}

/// Among the first `n` modes of size `w × h`, the one with the highest
/// refresh rate, the last of equal ones.
pub open spec fn fastest_of_size(modes: Seq<ModeInfo>, w: u16, h: u16, n: int) -> Option<int>
    decreases n,
{
    if n <= 0 {
        None
    } else {
        let m = modes[n - 1];
        let prev = fastest_of_size(modes, w, h, n - 1);
        if m.w == w && m.h == h {
            match prev {
                Some(b) => if m.refresh >= modes[b].refresh {
                    Some(n - 1)
                } else {
                    Some(b)
                },
                None => Some(n - 1),
            }
        } else {
            prev
        }
    }
}

/// The mode a newly connected output starts in: the highest refresh rate
/// at the preferred mode's size (the last of equally fast ones).
pub open spec fn spec_select_mode(modes: Seq<ModeInfo>) -> int {
    let p = preferred_idx(modes);
    match fastest_of_size(modes, modes[p].w, modes[p].h, modes.len() as int) {
        Some(i) => i,
        None => p,
    }
}

proof fn lemma_first_preferred_range(modes: Seq<ModeInfo>, n: int)
    requires
        0 <= n,
    ensures
        first_preferred(modes, n) matches Some(i) ==> 0 <= i < n,
    decreases n,
{
    if n > 0 {
        lemma_first_preferred_range(modes, n - 1);
    }
}

proof fn lemma_first_preferred_stays(modes: Seq<ModeInfo>, n: int, m: int)
    requires
        0 <= n <= m,
        first_preferred(modes, n) is Some,
    ensures
        first_preferred(modes, m) == first_preferred(modes, n),
    decreases m - n,
{
    if m > n {
        lemma_first_preferred_stays(modes, n, m - 1);
    }
}

proof fn lemma_fastest_range(modes: Seq<ModeInfo>, w: u16, h: u16, n: int)
    requires
        0 <= n,
    ensures
        fastest_of_size(modes, w, h, n) matches Some(i) ==> 0 <= i < n,
    decreases n,
{
    if n > 0 {
        lemma_fastest_range(modes, w, h, n - 1);
    }
}

/// The mode a newly connected output starts in (see [`spec_select_mode`]).
pub fn select_mode(modes: &Vec<ModeInfo>) -> (r: usize)
    requires
        modes@.len() > 0,
    ensures
        r == spec_select_mode(modes@),
        r < modes@.len(),
{
    let mut p: usize = 0;
    let mut found = false;
    let mut i: usize = 0;
    while i < modes.len()
        invariant
            i <= modes@.len(),
            !found ==> first_preferred(modes@, i as int) is None && p == 0,
            found ==> first_preferred(modes@, i as int) == Some(p as int),
            p < modes@.len(),
        decreases modes@.len() - i,
    {
        if !found && modes[i].preferred {
            p = i;
            found = true;
        } else if found {
            proof {
                lemma_first_preferred_stays(modes@, i as int, i + 1);
            }
        }
        i += 1;
    }
    let pw = modes[p].w;
    let ph = modes[p].h;
    let mut best: Option<usize> = None;
    let mut j: usize = 0;
    while j < modes.len()
        invariant
            j <= modes@.len(),
            p < modes@.len(),
            pw == modes@[p as int].w,
            ph == modes@[p as int].h,
            match best {
                Some(b) => fastest_of_size(modes@, pw, ph, j as int) == Some(b as int) && b < j,
                None => fastest_of_size(modes@, pw, ph, j as int) is None,
            },
        decreases modes@.len() - j,
    {
        let m = modes[j];
        if m.w == pw && m.h == ph {
            match best {
                Some(b) => {
                    if m.refresh >= modes[b].refresh {
                        best = Some(j);
                    }
                },
                None => {
                    best = Some(j);
                },
            }
        }
        j += 1;
    }
    match best {
        Some(b) => b,
        None => p,
    }
}

proof fn lemma_fastest_is_fastest(modes: Seq<ModeInfo>, w: u16, h: u16, n: int)
    requires
        0 <= n <= modes.len(),
    ensures
        fastest_of_size(modes, w, h, n) matches Some(b) ==> {
            &&& 0 <= b < n
            &&& modes[b].w == w && modes[b].h == h
            &&& forall|j: int|
                0 <= j < n && modes[j].w == w && modes[j].h == h ==> #[trigger] modes[j].refresh <= modes[b].refresh
        },
        fastest_of_size(modes, w, h, n) is None ==> forall|j: int|
            0 <= j < n ==> !(#[trigger] modes[j].w == w && modes[j].h == h),
    decreases n,
{
    if n > 0 {
        lemma_fastest_is_fastest(modes, w, h, n - 1);
    }
}

/// The mode a new output starts in has the preferred mode's size, and no
/// mode of that size refreshes faster.
pub proof fn lemma_selected_mode_is_fastest(modes: Seq<ModeInfo>)
    requires
        modes.len() > 0,
    ensures
        ({
            let p = preferred_idx(modes);
            let r = spec_select_mode(modes);
            &&& 0 <= r < modes.len()
            &&& modes[r].w == modes[p].w && modes[r].h == modes[p].h
            &&& forall|j: int|
                0 <= j < modes.len() && modes[j].w == modes[p].w && modes[j].h == modes[p].h
                    ==> #[trigger] modes[j].refresh <= modes[r].refresh
        }),
{
    let p = preferred_idx(modes);
    lemma_first_preferred_range(modes, modes.len() as int);
    assert(0 <= p < modes.len());
    lemma_fastest_is_fastest(modes, modes[p].w, modes[p].h, modes.len() as int);
}

/// Sum of the first `n` widths.
pub open spec fn width_sum(widths: Seq<i32>, n: int) -> int
    decreases n,
{
    if n <= 0 {
        0
    } else {
        width_sum(widths, n - 1) + widths[n - 1]
    }
}

/// Every partial sum of the widths is an `i32`.
pub open spec fn width_sums_fit(widths: Seq<i32>) -> bool {
    forall|n: int| 0 <= n <= widths.len() ==> fits(#[trigger] width_sum(widths, n))
}

/// Where a newly connected output goes: its configured position, else to
/// the right of all outputs already laid out, at the top.
pub fn new_output_position(configured: Option<(i32, i32)>, widths: &Vec<i32>) -> (r: (i32, i32))
    requires
        configured is None ==> width_sums_fit(widths@),
    ensures
        r == match configured {
            Some(p) => p,
            None => (width_sum(widths@, widths@.len() as int) as i32, 0i32),
        },
{
    match configured {
        Some(p) => p,
        None => {
            let mut x: i32 = 0;
            let mut i: usize = 0;
            while i < widths.len()
                invariant
                    i <= widths@.len(),
                    width_sums_fit(widths@),
                    x == width_sum(widths@, i as int),
                decreases widths@.len() - i,
            {
                assert(fits(width_sum(widths@, i + 1)));
                x = x + widths[i];
                i += 1;
            }
            (x, 0)
        },
    }
}

} // verus!
