//! Drag-to-edge snapping: which zone a pointer position selects, and the
//! rectangle each zone maps to on an output.

use vstd::prelude::*;

use crate::geometry::{div_trunc, max_of, max_i32, Rect};

verus! {

/// Whether `v` is a value of `i32`.
pub open spec fn fits(v: int) -> bool {
    i32::MIN <= v <= i32::MAX
}

/// Zone a window can be snapped to: a 3×3 grid of halves, quarters and full.
#[derive(Clone, Copy, Debug, PartialEq, Eq, Structural)]
pub enum SnapZone {
    TopLeft,
    TopHalf,
    TopRight,
    Left,
    Full,
    Right,
    BottomLeft,
    BottomHalf,
    BottomRight,
}

/// The zone selected by a pointer that is near the given output edges.
/// Corners win over single edges; the top or bottom edge alone selects
/// nothing (the top edge maximizes, which is handled elsewhere).
pub open spec fn spec_zone_from_edges(near_left: bool, near_right: bool, near_top: bool, near_bottom: bool) -> Option<
    SnapZone,
> {
    if near_left && near_top {
        Some(SnapZone::TopLeft)
    } else if near_right && near_top {
        Some(SnapZone::TopRight)
    } else if near_left && near_bottom {
        Some(SnapZone::BottomLeft)
    } else if near_right && near_bottom {
        Some(SnapZone::BottomRight)
    } else if near_left {
        Some(SnapZone::Left)
    } else if near_right {
        Some(SnapZone::Right)
    } else {
        None
    }
}

/// The zone selected by a pointer near the given output edges (see
/// [`spec_zone_from_edges`]).
pub fn zone_from_edges(near_left: bool, near_right: bool, near_top: bool, near_bottom: bool) -> (r: Option<SnapZone>)
    ensures
        r == spec_zone_from_edges(near_left, near_right, near_top, near_bottom),
{
    match (near_left, near_right, near_top, near_bottom) {
        (true, _, true, _) => Some(SnapZone::TopLeft),
        (_, true, true, _) => Some(SnapZone::TopRight),
        (true, _, _, true) => Some(SnapZone::BottomLeft),
        (_, true, _, true) => Some(SnapZone::BottomRight),
        (true, _, _, _) => Some(SnapZone::Left),
        (_, true, _, _) => Some(SnapZone::Right),
        _ => None,
    }
}

/// The zone follows the edges the pointer is near: a zone is chosen exactly
/// when the pointer is near the left or the right edge; it lies on the left
/// side only when the pointer is near the left edge (and on the left side
/// whenever it is near the left edge only), the same on the right; it is a
/// top corner when the pointer is also near the top edge, a bottom corner
/// only when near the bottom edge, and never a top or bottom half or the
/// full output. Near both side edges the left side wins; near no top or
/// bottom edge it is a plain side zone.
pub proof fn lemma_zone_follows_edges(near_left: bool, near_right: bool, near_top: bool, near_bottom: bool)
    ensures
        ({
            let r = spec_zone_from_edges(near_left, near_right, near_top, near_bottom);
            &&& r is Some <==> (near_left || near_right)
            &&& r matches Some(z) ==> {
                &&& (z == SnapZone::Left || z == SnapZone::TopLeft || z == SnapZone::BottomLeft) ==> near_left
                &&& (z == SnapZone::Right || z == SnapZone::TopRight || z == SnapZone::BottomRight) ==> near_right
                &&& (z == SnapZone::TopLeft || z == SnapZone::TopRight) ==> near_top
                &&& (z == SnapZone::BottomLeft || z == SnapZone::BottomRight) ==> near_bottom
                &&& near_top ==> (z == SnapZone::TopLeft || z == SnapZone::TopRight)
                &&& z != SnapZone::TopHalf && z != SnapZone::BottomHalf && z != SnapZone::Full
            }
            &&& near_left && !near_right ==> (r == Some(SnapZone::Left) || r == Some(SnapZone::TopLeft) || r == Some(
                SnapZone::BottomLeft,
            ))
            &&& near_right && !near_left ==> (r == Some(SnapZone::Right) || r == Some(SnapZone::TopRight) || r == Some(
                SnapZone::BottomRight,
            ))
            &&& near_left && near_right ==> (r == Some(SnapZone::Left) || r == Some(SnapZone::TopLeft) || r == Some(
                SnapZone::BottomLeft,
            ))
            &&& (near_left || near_right) && !near_top && near_bottom ==> (r == Some(SnapZone::BottomLeft) || r == Some(
                SnapZone::BottomRight,
            ))
            &&& (near_left || near_right) && !near_top && !near_bottom ==> (r == Some(SnapZone::Left) || r == Some(
                SnapZone::Right,
            ))
        }),
{
}

/// A pointer at the top edge maximizes only away from the corners.
pub fn top_edge_only(near_left: bool, near_right: bool, near_top: bool) -> (r: bool)
    ensures
        r == (near_top && !near_left && !near_right),
{
    near_top && !near_left && !near_right
}

/// Exclusive-zone insets of an output: space reserved by panels on each side.
#[derive(Clone, Copy, Debug, PartialEq, Eq, Structural)]
pub struct Insets {
    pub top: i32,
    pub bottom: i32,
    pub left: i32,
    pub right: i32,
}

/// Every intermediate of [`snap_zone_geometry`] is an `i32`.
pub open spec fn snap_zone_fits(geo: Rect, ins: Insets, outer: i32, inner: i32) -> bool {
    let w = max_of(geo.w - ins.left - ins.right - outer * 2, 1);
    let h = max_of(geo.h - ins.top - ins.bottom - outer * 2, 1);
    let hi = div_trunc(inner as int, 2);
    &&& fits(geo.x + ins.left)
    &&& fits(geo.x + ins.left + outer)
    &&& fits(geo.y + ins.top)
    &&& fits(geo.y + ins.top + outer)
    &&& fits(outer * 2)
    &&& fits(geo.w - ins.left)
    &&& fits(geo.w - ins.left - ins.right)
    &&& fits(geo.w - ins.left - ins.right - outer * 2)
    &&& fits(geo.h - ins.top)
    &&& fits(geo.h - ins.top - ins.bottom)
    &&& fits(geo.h - ins.top - ins.bottom - outer * 2)
    &&& fits(w / 2 - hi)
    &&& fits(geo.x + ins.left + outer + w / 2)
    &&& fits(geo.x + ins.left + outer + w / 2 + hi)
    &&& fits(w - w / 2 - hi)
    &&& fits(h / 2 - hi)
    &&& fits(geo.y + ins.top + outer + h / 2)
    &&& fits(geo.y + ins.top + outer + h / 2 + hi)
    &&& fits(h - h / 2 - hi)
}

/// The rectangle of `zone` on an output of geometry `geo` with panel insets
/// `ins`: the usable area shrunk by `outer` on every side, halves separated
/// by `inner` (half of it on each side of the middle), each size at least 1.
pub open spec fn spec_snap_zone_geometry(geo: Rect, ins: Insets, outer: i32, inner: i32, zone: SnapZone) -> Rect {
    let x = geo.x + ins.left + outer;
    let y = geo.y + ins.top + outer;
    let w = max_of(geo.w - ins.left - ins.right - outer * 2, 1);
    let h = max_of(geo.h - ins.top - ins.bottom - outer * 2, 1);
    let hi = div_trunc(inner as int, 2);
    let left_w = max_of(w / 2 - hi, 1);
    let right_x = x + w / 2 + hi;
    let right_w = max_of(w - w / 2 - hi, 1);
    let top_h = max_of(h / 2 - hi, 1);
    let bottom_y = y + h / 2 + hi;
    let bottom_h = max_of(h - h / 2 - hi, 1);
    let (rx, ry, rw, rh) = match zone {
        SnapZone::Full => (x, y, w, h),
        SnapZone::Left => (x, y, left_w, h),
        SnapZone::Right => (right_x, y, right_w, h),
        SnapZone::TopHalf => (x, y, w, top_h),
        SnapZone::BottomHalf => (x, bottom_y, w, bottom_h),
        SnapZone::TopLeft => (x, y, left_w, top_h),
        SnapZone::TopRight => (right_x, y, right_w, top_h),
        SnapZone::BottomLeft => (x, bottom_y, left_w, bottom_h),
        SnapZone::BottomRight => (right_x, bottom_y, right_w, bottom_h),
    };
    Rect { x: rx as i32, y: ry as i32, w: rw as i32, h: rh as i32 }
}

/// The rectangle of `zone` on an output (see [`spec_snap_zone_geometry`]).
pub fn snap_zone_geometry(geo: Rect, ins: Insets, outer: i32, inner: i32, zone: SnapZone) -> (r: Rect)
    requires
        snap_zone_fits(geo, ins, outer, inner),
    ensures
        r == spec_snap_zone_geometry(geo, ins, outer, inner, zone),
{
    let x = geo.x + ins.left + outer;
    let y = geo.y + ins.top + outer;
    let w = max_i32(geo.w - ins.left - ins.right - outer * 2, 1);
    let h = max_i32(geo.h - ins.top - ins.bottom - outer * 2, 1);
    let half_inner = inner / 2;
    let half_w = w / 2;
    let half_h = h / 2;
    let left_w = max_i32(half_w - half_inner, 1);
    let right_x = x + half_w + half_inner;
    let right_w = max_i32(w - half_w - half_inner, 1);
    let top_h = max_i32(half_h - half_inner, 1);
    let bottom_y = y + half_h + half_inner;
    let bottom_h = max_i32(h - half_h - half_inner, 1);
    match zone {
        SnapZone::Full => Rect { x, y, w, h },
        SnapZone::Left => Rect { x, y, w: left_w, h },
        SnapZone::Right => Rect { x: right_x, y, w: right_w, h },
        SnapZone::TopHalf => Rect { x, y, w, h: top_h },
        SnapZone::BottomHalf => Rect { x, y: bottom_y, w, h: bottom_h },
        SnapZone::TopLeft => Rect { x, y, w: left_w, h: top_h },
        SnapZone::TopRight => Rect { x: right_x, y, w: right_w, h: top_h },
        SnapZone::BottomLeft => Rect { x, y: bottom_y, w: left_w, h: bottom_h },
        SnapZone::BottomRight => Rect { x: right_x, y: bottom_y, w: right_w, h: bottom_h },
    }
}

/// Gap around and between floating drag-snapped windows.
pub const FLOAT_SNAP_GAP: i32 = 40;

/// Every intermediate of [`floating_snap_rect`] is an `i32`.
pub open spec fn floating_snap_fits(region: Rect) -> bool {
    let gap = FLOAT_SNAP_GAP as int;
    let full_w = max_of(region.w - 2 * gap, 1);
    let full_h = max_of(region.h - 2 * gap, 1);
    let half_w = max_of(div_trunc(full_w - gap, 2), 1);
    let half_h = max_of(div_trunc(full_h - gap, 2), 1);
    &&& fits(region.w - 2 * gap)
    &&& fits(region.h - 2 * gap)
    &&& fits(region.x + gap)
    &&& fits(region.y + gap)
    &&& fits(region.x + region.w)
    &&& fits(region.x + region.w - gap)
    &&& fits(region.x + region.w - gap - half_w)
    &&& fits(region.y + region.h)
    &&& fits(region.y + region.h - gap)
    &&& fits(region.y + region.h - gap - half_h)
}

/// Target of a floating drag-snap within `region` (the output minus its
/// panels): inset by the gap on every side, halves and quarters separated by
/// the same gap, every size at least 1.
pub open spec fn spec_floating_snap_rect(region: Rect, zone: SnapZone) -> Rect {
    let gap = FLOAT_SNAP_GAP as int;
    let full_w = max_of(region.w - 2 * gap, 1);
    let full_h = max_of(region.h - 2 * gap, 1);
    let half_w = max_of(div_trunc(full_w - gap, 2), 1);
    let half_h = max_of(div_trunc(full_h - gap, 2), 1);
    let left_x = region.x + gap;
    let right_x = region.x + region.w - gap - half_w;
    let top_y = region.y + gap;
    let bottom_y = region.y + region.h - gap - half_h;
    let (x, y, w, h) = match zone {
        SnapZone::Left => (left_x, top_y, half_w, full_h),
        SnapZone::Right => (right_x, top_y, half_w, full_h),
        SnapZone::TopLeft => (left_x, top_y, half_w, half_h),
        SnapZone::TopRight => (right_x, top_y, half_w, half_h),
        SnapZone::BottomLeft => (left_x, bottom_y, half_w, half_h),
        SnapZone::BottomRight => (right_x, bottom_y, half_w, half_h),
        SnapZone::TopHalf => (left_x, top_y, full_w, half_h),
        SnapZone::BottomHalf => (left_x, bottom_y, full_w, half_h),
        SnapZone::Full => (left_x, top_y, full_w, full_h),
    };
    Rect { x: x as i32, y: y as i32, w: w as i32, h: h as i32 }
}

/// Target of a floating drag-snap (see [`spec_floating_snap_rect`]).
pub fn floating_snap_rect(region: Rect, zone: SnapZone) -> (r: Rect)
    requires
        floating_snap_fits(region),
    ensures
        r == spec_floating_snap_rect(region, zone),
{
    let gap = FLOAT_SNAP_GAP;
    let full_w = max_i32(region.w - 2 * gap, 1);
    let full_h = max_i32(region.h - 2 * gap, 1);
    let half_w = max_i32((full_w - gap) / 2, 1);
    let half_h = max_i32((full_h - gap) / 2, 1);
    let left_x = region.x + gap;
    let right_x = region.x + region.w - gap - half_w;
    let top_y = region.y + gap;
    let bottom_y = region.y + region.h - gap - half_h;
    let (x, y, w, h) = match zone {
        SnapZone::Left => (left_x, top_y, half_w, full_h),
        SnapZone::Right => (right_x, top_y, half_w, full_h),
        SnapZone::TopLeft => (left_x, top_y, half_w, half_h),
        SnapZone::TopRight => (right_x, top_y, half_w, half_h),
        SnapZone::BottomLeft => (left_x, bottom_y, half_w, half_h),
        SnapZone::BottomRight => (right_x, bottom_y, half_w, half_h),
        SnapZone::TopHalf => (left_x, top_y, full_w, half_h),
        SnapZone::BottomHalf => (left_x, bottom_y, full_w, half_h),
        SnapZone::Full => (left_x, top_y, full_w, full_h),
    };
    Rect { x, y, w, h }
}

/// Two opposite floating halves never overlap: the left half ends a full gap
/// before the right half starts.
pub proof fn lemma_floating_halves_apart(region: Rect)
    requires
        floating_snap_fits(region),
        region.w >= 4 * FLOAT_SNAP_GAP,
    ensures
        spec_floating_snap_rect(region, SnapZone::Left).x + spec_floating_snap_rect(region, SnapZone::Left).w
            + FLOAT_SNAP_GAP <= spec_floating_snap_rect(region, SnapZone::Right).x,
{
}

} // verus!
