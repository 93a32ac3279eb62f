//! Keyboard placement of the focused window: the 3×3 move grid (move one
//! cell, jump to a neighbouring output), the edge-pinned thirds ladder and
//! the three-stop repositioning shared by both.

use vstd::prelude::*;

use crate::geometry::{clamp_i32, clamp_to, div_trunc, max_i32, max_of, Rect};
use crate::snap::{fits, Insets};

verus! {

/// A cell of the 3×3 move grid.
#[derive(Clone, Copy, Debug, PartialEq, Eq, Structural)]
pub enum MoveZone {
    TopLeft,
    TopCenter,
    TopRight,
    MidLeft,
    Center,
    MidRight,
    BotLeft,
    BotCenter,
    BotRight,
}

/// An arrow key.
#[derive(Clone, Copy, Debug, PartialEq, Eq, Structural)]
pub enum ArrowDir {
    Left,
    Right,
    Up,
    Down,
}

/// Column and row of a grid cell.
pub open spec fn spec_zone_cell(z: MoveZone) -> (i32, i32) {
    match z {
        MoveZone::TopLeft => (0, 0),
        MoveZone::TopCenter => (1, 0),
        MoveZone::TopRight => (2, 0),
        MoveZone::MidLeft => (0, 1),
        MoveZone::Center => (1, 1),
        MoveZone::MidRight => (2, 1),
        MoveZone::BotLeft => (0, 2),
        MoveZone::BotCenter => (1, 2),
        MoveZone::BotRight => (2, 2),
    }
}

/// The cell at a column and row, each clamped to the grid.
pub open spec fn spec_zone_from_grid(col: i32, row: i32) -> MoveZone {
    let c = clamp_to(col as int, 0, 2);
    let r = clamp_to(row as int, 0, 2);
    if r == 0 {
        if c == 0 {
            MoveZone::TopLeft
        } else if c == 1 {
            MoveZone::TopCenter
        } else {
            MoveZone::TopRight
        }
    } else if r == 1 {
        if c == 0 {
            MoveZone::MidLeft
        } else if c == 1 {
            MoveZone::Center
        } else {
            MoveZone::MidRight
        }
    } else {
        if c == 0 {
            MoveZone::BotLeft
        } else if c == 1 {
            MoveZone::BotCenter
        } else {
            MoveZone::BotRight
        }
    }
}

/// The cell at a column and row (see [`spec_zone_from_grid`]).
pub fn zone_from_grid(col: i32, row: i32) -> (r: MoveZone)
    ensures
        r == spec_zone_from_grid(col, row),
{
    match (clamp_i32(col, 0, 2), clamp_i32(row, 0, 2)) {
        (0, 0) => MoveZone::TopLeft,
        (1, 0) => MoveZone::TopCenter,
        (2, 0) => MoveZone::TopRight,
        (0, 1) => MoveZone::MidLeft,
        (1, 1) => MoveZone::Center,
        (2, 1) => MoveZone::MidRight,
        (0, 2) => MoveZone::BotLeft,
        (1, 2) => MoveZone::BotCenter,
        _ => MoveZone::BotRight,
    }
}

/// Column and row of a grid cell.
pub fn zone_cell(z: MoveZone) -> (r: (i32, i32))
    ensures
        r == spec_zone_cell(z),
{
    match z {
        MoveZone::TopLeft => (0, 0),
        MoveZone::TopCenter => (1, 0),
        MoveZone::TopRight => (2, 0),
        MoveZone::MidLeft => (0, 1),
        MoveZone::Center => (1, 1),
        MoveZone::MidRight => (2, 1),
        MoveZone::BotLeft => (0, 2),
        MoveZone::BotCenter => (1, 2),
        MoveZone::BotRight => (2, 2),
    }
}

/// A cell's column and row name it again, and any column and row name the
/// cell whose coordinates are those clamped to the grid.
pub proof fn lemma_zone_grid_round_trip(z: MoveZone, col: i32, row: i32)
    ensures
        spec_zone_from_grid(spec_zone_cell(z).0, spec_zone_cell(z).1) == z,
        spec_zone_cell(spec_zone_from_grid(col, row)) == (
            clamp_to(col as int, 0, 2) as i32,
            clamp_to(row as int, 0, 2) as i32,
        ),
{
}

/// Every intermediate of [`grid_work_area`] is an `i32`.
pub open spec fn grid_area_fits(geo: Rect, ins: Insets, gap: i32) -> bool {
    &&& fits(geo.x + ins.left)
    &&& fits(geo.x + ins.left + gap)
    &&& fits(geo.y + ins.top)
    &&& fits(geo.y + ins.top + gap)
    &&& fits(2 * gap)
    &&& fits(geo.w - ins.left)
    &&& fits(geo.w - ins.left - ins.right)
    &&& fits(geo.w - ins.left - ins.right - 2 * gap)
    &&& fits(geo.h - ins.top)
    &&& fits(geo.h - ins.top - ins.bottom)
    &&& fits(geo.h - ins.top - ins.bottom - 2 * gap)
}

/// The area the move grid covers: the output minus its panels, inset by
/// `gap`, each size at least 1.
pub open spec fn spec_grid_work_area(geo: Rect, ins: Insets, gap: i32) -> Rect {
    Rect {
        x: (geo.x + ins.left + gap) as i32,
        y: (geo.y + ins.top + gap) as i32,
        w: max_of(geo.w - ins.left - ins.right - 2 * gap, 1) as i32,
        h: max_of(geo.h - ins.top - ins.bottom - 2 * gap, 1) as i32,
    }
}

/// The area the move grid covers (see [`spec_grid_work_area`]).
pub fn grid_work_area(geo: Rect, ins: Insets, gap: i32) -> (r: Rect)
    requires
        grid_area_fits(geo, ins, gap),
    ensures
        r == spec_grid_work_area(geo, ins, gap),
{
    Rect {
        x: geo.x + ins.left + gap,
        y: geo.y + ins.top + gap,
        w: max_i32(geo.w - ins.left - ins.right - 2 * gap, 1),
        h: max_i32(geo.h - ins.top - ins.bottom - 2 * gap, 1),
    }
}

/// Position of a span of `len` in cell `i` (0 start, 1 centre, 2 end) of an
/// axis starting at `pos` with length `avail`.
pub open spec fn cell_pos(pos: int, avail: int, len: int, i: int) -> int {
    if i == 0 {
        pos
    } else if i == 1 {
        pos + div_trunc(avail - len, 2)
    } else {
        pos + avail - len
    }
}

/// A work area can hold a window placed anywhere on the grid.
pub open spec fn grid_fits(work: Rect) -> bool {
    &&& work.w >= 1
    &&& work.h >= 1
    &&& fits(work.x + work.w)
    &&& fits(work.y + work.h)
}

/// The window of size (`pw`, `ph`), shrunk to fit, placed in `zone`.
pub open spec fn spec_zone_target(work: Rect, pw: i32, ph: i32, zone: MoveZone) -> Rect {
    let w = clamp_to(pw as int, 1, work.w as int);
    let h = clamp_to(ph as int, 1, work.h as int);
    let (col, row) = spec_zone_cell(zone);
    Rect {
        x: cell_pos(work.x as int, work.w as int, w, col as int) as i32,
        y: cell_pos(work.y as int, work.h as int, h, row as int) as i32,
        w: w as i32,
        h: h as i32,
    }
}

/// Where "move to zone" puts a window of size (`pw`, `ph`) (see [`spec_zone_target`]).
pub fn zone_target(work: Rect, pw: i32, ph: i32, zone: MoveZone) -> (r: Rect)
    requires
        grid_fits(work),
    ensures
        r == spec_zone_target(work, pw, ph, zone),
{
    let w = clamp_i32(pw, 1, work.w);
    let h = clamp_i32(ph, 1, work.h);
    let (col, row) = zone_cell(zone);
    let x = if col == 0 {
        work.x
    } else if col == 1 {
        work.x + (work.w - w) / 2
    } else {
        work.x + work.w - w
    };
    let y = if row == 0 {
        work.y
    } else if row == 1 {
        work.y + (work.h - h) / 2
    } else {
        work.y + work.h - h
    };
    Rect { x, y, w, h }
}

/// Index of the first smallest of the first `n` values of `d`.
pub open spec fn argmin(d: Seq<int>, n: int) -> int
    decreases n,
{
    if n <= 1 {
        0
    } else {
        let p = argmin(d, n - 1);
        if d[n - 1] < d[p] {
            n - 1
        } else {
            p
        }
    }
}

proof fn lemma_argmin_range(d: Seq<int>, n: int)
    requires
        1 <= n,
    ensures
        0 <= argmin(d, n) < n,
        forall|j: int| 0 <= j < n ==> d[argmin(d, n)] <= #[trigger] d[j],
    decreases n,
{
    if n > 1 {
        lemma_argmin_range(d, n - 1);
    }
}

/// `|a - b|`.
pub open spec fn dist(a: int, b: int) -> int {
    if a >= b {
        a - b
    } else {
        b - a
    }
}

/// Distances from `val` to each option.
pub open spec fn dists(options: Seq<i32>, val: i32) -> Seq<int> {
    options.map_values(|o: i32| dist(o as int, val as int))
}

/// Index of the option nearest `val` (the first of equally near ones); 0
/// when there are none.
pub open spec fn spec_nearest_idx(val: i32, options: Seq<i32>) -> int {
    if options.len() == 0 {
        0
    } else {
        argmin(dists(options, val), options.len() as int)
    }
}

/// Index of the option nearest `val` (see [`spec_nearest_idx`]).
pub fn nearest_i32_idx(val: i32, options: &[i32]) -> (r: usize)
    ensures
        r == spec_nearest_idx(val, options@),
        options@.len() > 0 ==> r < options@.len(),
{
    let ghost d = dists(options@, val);
    if options.len() == 0 {
        return 0;
    }
    let mut best: usize = 0;
    let mut best_d: i64 = {
        let a = options[0] as i64 - val as i64;
        if a >= 0 {
            a
        } else {
            -a
        }
    };
    let mut i: usize = 1;
    while i < options.len()
        invariant
            1 <= i <= options@.len(),
            d == dists(options@, val),
            best == argmin(d, i as int),
            best < i,
            best_d == d[best as int],
        decreases options@.len() - i,
    {
        let a = options[i] as i64 - val as i64;
        let di = if a >= 0 {
            a
        } else {
            -a
        };
        if di < best_d {
            best = i;
            best_d = di;
        }
        i += 1;
    }
    best
}

/// Move one step toward the top of a three-stop ladder, or toward the
/// bottom, clamped at the ends.
pub fn step_idx(cur: usize, forward: bool) -> (r: usize)
    requires
        forward ==> cur < usize::MAX,
    ensures
        r == if forward {
            if cur + 1 <= 2 {
                cur + 1
            } else {
                2
            }
        } else {
            if cur >= 1 {
                cur - 1
            } else {
                0
            }
        },
{
    if forward {
        if cur + 1 <= 2 {
            cur + 1
        } else {
            2
        }
    } else {
        if cur >= 1 {
            cur - 1
        } else {
            0
        }
    }
}

/// The 1/3, 2/3 and 3/3 lengths of an axis of `avail` (at least 1) laid out
/// as three cells with `gap` between them.
pub open spec fn spec_axis_thirds(avail: i32, gap: i32) -> Seq<int> {
    let a = max_of(avail as int, 1);
    let cell = max_of(div_trunc(a - 2 * gap, 3), 1);
    seq![cell, if 2 * cell + gap <= a { 2 * cell + gap } else { a }, a]
}

/// The thirds ladder lengths (see [`spec_axis_thirds`]).
pub fn axis_thirds(avail: i32, gap: i32) -> (r: [i32; 3])
    requires
        fits(2 * gap),
        fits(max_of(avail as int, 1) - 2 * gap),
        fits(2 * max_of(div_trunc(max_of(avail as int, 1) - 2 * gap, 3), 1) + gap),
    ensures
        r@.map_values(|v: i32| v as int) == spec_axis_thirds(avail, gap),
{
    let avail = max_i32(avail, 1);
    let cell = max_i32((avail - 2 * gap) / 3, 1);
    let two = 2 * cell + gap;
    let two = if two <= avail {
        two
    } else {
        avail
    };
    let r = [cell, two, avail];
    assert(r@.map_values(|v: i32| v as int) =~= spec_axis_thirds(avail, gap));
    r
}

/// The start, centre and end positions of a span of `len` in the region
/// `[rpos, rpos + rlen)`, inset by `gap` at the ends.
pub open spec fn spec_axis_stops(rpos: i32, rlen: i32, len: i32, gap: i32) -> Seq<int> {
    seq![rpos + gap, rpos + div_trunc(rlen - len, 2), rpos + rlen - len - gap]
}

/// The three stops fit in `i32`.
pub open spec fn stops_fit(rpos: i32, rlen: i32, len: i32, gap: i32) -> bool {
    &&& fits(rpos + gap)
    &&& fits(rlen - len)
    &&& fits(rpos + div_trunc(rlen - len, 2))
    &&& fits(rpos + rlen)
    &&& fits(rpos + rlen - len)
    &&& fits(rpos + rlen - len - gap)
}

/// The three stops (see [`spec_axis_stops`]).
pub fn axis_stops(rpos: i32, rlen: i32, len: i32, gap: i32) -> (r: [i32; 3])
    requires
        stops_fit(rpos, rlen, len, gap),
    ensures
        r@.map_values(|v: i32| v as int) == spec_axis_stops(rpos, rlen, len, gap),
{
    let r = [rpos + gap, rpos + (rlen - len) / 2, rpos + rlen - len - gap];
    assert(r@.map_values(|v: i32| v as int) =~= spec_axis_stops(rpos, rlen, len, gap));
    r
}

/// The stop one step from the one nearest `pos`, toward the end or the start.
pub open spec fn spec_step_pos(pos: i32, len: i32, rpos: i32, rlen: i32, gap: i32, toward_end: bool) -> int {
    let stops = spec_axis_stops(rpos, rlen, len, gap);
    let cur = argmin(stops.map_values(|s: int| dist(s, pos as int)), 3);
    let next = if toward_end {
        if cur + 1 <= 2 {
            cur + 1
        } else {
            2
        }
    } else {
        if cur >= 1 {
            cur - 1
        } else {
            0
        }
    };
    stops[next]
}

/// Reposition one axis of a window: move it one stop from the stop nearest
/// its current position (see [`spec_step_pos`]). Its length never changes.
pub fn step_pos(pos: i32, len: i32, rpos: i32, rlen: i32, gap: i32, toward_end: bool) -> (r: i32)
    requires
        stops_fit(rpos, rlen, len, gap),
    ensures
        r == spec_step_pos(pos, len, rpos, rlen, gap, toward_end),
{
    let stops = axis_stops(rpos, rlen, len, gap);
    proof {
        assert(stops@.map_values(|v: i32| v as int)[0] == stops[0] as int);
        assert(stops@.map_values(|v: i32| v as int)[1] == stops[1] as int);
        assert(stops@.map_values(|v: i32| v as int)[2] == stops[2] as int);
    }
    let cur = nearest_i32_idx(pos, &stops);
    let next = step_idx(cur, toward_end);
    proof {
        let ss = spec_axis_stops(rpos, rlen, len, gap);
        assert(dists(stops@, pos) =~= ss.map_values(|s: int| dist(s, pos as int)));
    }
    stops[next]
}

/// Which edge of the usable area a window hugs.
#[derive(Clone, Copy, Debug, PartialEq, Eq, Structural)]
pub enum EdgePin {
    Left,
    Right,
}

/// A window whose left edge is within `tol` of the region's left edge is
/// left-pinned; otherwise one whose right edge is within `tol` of the
/// region's right edge is right-pinned; otherwise it is not pinned.
pub open spec fn spec_edge_pin(x: i32, w: i32, region: Rect, tol: i32) -> Option<EdgePin> {
    if x - region.x <= tol {
        Some(EdgePin::Left)
    } else if (region.x + region.w) - (x + w) <= tol {
        Some(EdgePin::Right)
    } else {
        None
    }
}

/// Whether a window spanning `[x, x + w)` hugs an edge of `region` (see [`spec_edge_pin`]).
pub fn edge_pin(x: i32, w: i32, region: Rect, tol: i32) -> (r: Option<EdgePin>)
    ensures
        r == spec_edge_pin(x, w, region, tol),
{
    let near_left = x as i64 - region.x as i64 <= tol as i64;
    let near_right = (region.x as i64 + region.w as i64) - (x as i64 + w as i64) <= tol as i64;
    if near_left {
        Some(EdgePin::Left)
    } else if near_right {
        Some(EdgePin::Right)
    } else {
        None
    }
}

/// Index of the value of `vals` (three of them) nearest `v`, the first of
/// equally near ones.
pub open spec fn nearest3(vals: Seq<int>, v: int) -> int {
    argmin(vals.map_values(|s: int| dist(s, v)), 3)
}

/// One step along a three-rung ladder, clamped at the ends.
pub open spec fn step3(cur: int, forward: bool) -> int {
    if forward {
        if cur + 1 <= 2 {
            cur + 1
        } else {
            2
        }
    } else {
        if cur >= 1 {
            cur - 1
        } else {
            0
        }
    }
}

/// The gap an edge-pinned window keeps to the region's edges.
pub open spec fn pin_gap() -> int {
    crate::windows::SINGLE_WINDOW_OUTER_GAP as int
}

/// The thirds ladder of a region axis of `rlen`: thirds of the length less
/// a gap at each end.
pub open spec fn region_thirds(rlen: i32) -> Seq<int> {
    spec_axis_thirds((rlen - 2 * pin_gap()) as i32, pin_gap() as i32)
}

/// The region axis is long enough to be cut in thirds in `i32`, and at
/// least 1.
pub open spec fn thirds_fit(rlen: i32) -> bool {
    rlen >= 1 && fits(rlen - 2 * pin_gap())
}

/// The length an axis of `len` takes one rung up or down the thirds
/// ladder of a region axis of `rlen`, limited to `1..=rlen`; `None` at the
/// end of the ladder.
pub open spec fn spec_third_step(rlen: i32, len: i32, grow: bool) -> Option<int> {
    let th = region_thirds(rlen);
    let cur = nearest3(th, len as int);
    let next = step3(cur, grow);
    if next == cur {
        None
    } else {
        Some(clamp_to(th[next], 1, rlen as int))
    }
}

proof fn lemma_argmin3(d: Seq<int>)
    requires
        d.len() == 3,
    ensures
        0 <= argmin(d, 3) < 3,
{
    lemma_argmin_range(d, 3);
}

/// One rung up or down the thirds ladder (see [`spec_third_step`]).
fn third_step(rlen: i32, len: i32, grow: bool) -> (r: Option<i32>)
    requires
        thirds_fit(rlen),
    ensures
        match spec_third_step(rlen, len, grow) {
            Some(v) => r == Some(v as i32) && 1 <= v <= rlen,
            None => r is None,
        },
{
    let gap = crate::windows::SINGLE_WINDOW_OUTER_GAP;
    let thirds = axis_thirds(rlen - 2 * gap, gap);
    let ghost th = region_thirds(rlen);
    proof {
        assert(thirds@.map_values(|v: i32| v as int)[0] == thirds[0] as int);
        assert(thirds@.map_values(|v: i32| v as int)[1] == thirds[1] as int);
        assert(thirds@.map_values(|v: i32| v as int)[2] == thirds[2] as int);
        assert(dists(thirds@, len) =~= th.map_values(|s: int| dist(s, len as int)));
        lemma_argmin3(th.map_values(|s: int| dist(s, len as int)));
    }
    let cur = nearest_i32_idx(len, &thirds);
    let next = step_idx(cur, grow);
    if next == cur {
        return None;
    }
    Some(clamp_i32(thirds[next], 1, rlen))
}

/// Super+Up/Down on an edge-pinned window at `(x, y)` of `w × h` in
/// `region`: its height takes one rung of the thirds ladder (taller when
/// `grow`), its width and column stay, and it re-anchors to whichever of
/// the top, centre and bottom stops its current height was nearest; `None`
/// at the end of the ladder.
pub open spec fn spec_axis_resize_height(region: Rect, x: i32, y: i32, w: i32, h: i32, grow: bool) -> Option<Rect> {
    match spec_third_step(region.h, h, grow) {
        None => None,
        Some(new_h) => {
            let stop = nearest3(spec_axis_stops(region.y, region.h, h, pin_gap() as i32), y as int);
            let ny = spec_axis_stops(region.y, region.h, new_h as i32, pin_gap() as i32)[stop];
            Some(Rect { x, y: ny as i32, w, h: new_h as i32 })
        },
    }
}

/// The height ladder's stops fit in `i32`, for the current height and any
/// height the ladder can give.
pub open spec fn height_resize_fits(region: Rect, h: i32) -> bool {
    &&& thirds_fit(region.h)
    &&& stops_fit(region.y, region.h, h, pin_gap() as i32)
    &&& fits(region.y + pin_gap())
    &&& fits(region.y + region.h)
    &&& fits(region.y + region.h - 1 - pin_gap())
    &&& fits(region.y - pin_gap())
}

/// The rectangle an edge-pinned window takes on Super+Up/Down (see
/// [`spec_axis_resize_height`]).
pub fn axis_resize_height(region: Rect, x: i32, y: i32, w: i32, h: i32, grow: bool) -> (r: Option<Rect>)
    requires
        height_resize_fits(region, h),
    ensures
        r == spec_axis_resize_height(region, x, y, w, h, grow),
{
    let gap = crate::windows::SINGLE_WINDOW_OUTER_GAP;
    let new_h = match third_step(region.h, h, grow) {
        None => return None,
        Some(v) => v,
    };
    let cur_stops = axis_stops(region.y, region.h, h, gap);
    proof {
        let ss = spec_axis_stops(region.y, region.h, h, gap);
        assert(cur_stops@.map_values(|v: i32| v as int)[0] == cur_stops[0] as int);
        assert(cur_stops@.map_values(|v: i32| v as int)[1] == cur_stops[1] as int);
        assert(cur_stops@.map_values(|v: i32| v as int)[2] == cur_stops[2] as int);
        assert(dists(cur_stops@, y) =~= ss.map_values(|s: int| dist(s, y as int)));
        lemma_argmin3(ss.map_values(|s: int| dist(s, y as int)));
    }
    let stop = nearest_i32_idx(y, &cur_stops);
    assert(0 <= div_trunc(region.h - new_h, 2) <= region.h - new_h);
    let new_stops = axis_stops(region.y, region.h, new_h, gap);
    proof {
        assert(new_stops@.map_values(|v: i32| v as int)[stop as int] == new_stops[stop as int] as int);
    }
    Some(Rect { x, y: new_stops[stop], w, h: new_h })
}

/// Super+Left/Right on a window pinned to `pin`'s edge of `region`: its
/// width takes one rung of the thirds ladder (wider when `wider`), its
/// height and row stay, and it stays a gap from the pinned edge; `None` at
/// the end of the ladder.
pub open spec fn spec_axis_resize_width(region: Rect, x: i32, y: i32, w: i32, h: i32, wider: bool, pin: EdgePin) -> Option<Rect> {
    match spec_third_step(region.w, w, wider) {
        None => None,
        Some(new_w) => {
            let nx = match pin {
                EdgePin::Left => region.x + pin_gap(),
                EdgePin::Right => region.x + region.w - pin_gap() - new_w,
            };
            Some(Rect { x: nx as i32, y, w: new_w as i32, h })
        },
    }
}

/// The width ladder's positions fit in `i32`.
pub open spec fn width_resize_fits(region: Rect) -> bool {
    &&& thirds_fit(region.w)
    &&& fits(region.x + pin_gap())
    &&& fits(region.x + region.w)
    &&& fits(region.x + region.w - pin_gap())
    &&& fits(region.x + region.w - pin_gap() - region.w)
}

/// The rectangle an edge-pinned window takes on Super+Left/Right (see
/// [`spec_axis_resize_width`]).
pub fn axis_resize_width(region: Rect, x: i32, y: i32, w: i32, h: i32, wider: bool, pin: EdgePin) -> (r: Option<Rect>)
    requires
        width_resize_fits(region),
    ensures
        r == spec_axis_resize_width(region, x, y, w, h, wider, pin),
{
    let gap = crate::windows::SINGLE_WINDOW_OUTER_GAP;
    let new_w = match third_step(region.w, w, wider) {
        None => return None,
        Some(v) => v,
    };
    let nx = match pin {
        EdgePin::Left => region.x + gap,
        EdgePin::Right => region.x + region.w - gap - new_w,
    };
    Some(Rect { x: nx, y, w: new_w, h })
}

/// What one arrow press on the move grid does.
#[derive(Clone, Copy, Debug, PartialEq, Eq, Structural)]
pub enum CellStep {
    /// Try the neighbouring output that way, landing in this row; when there
    /// is none the window stays.
    Cross(ArrowDir, i32),
    /// Move to this cell.
    Move(MoveZone),
    /// Already at the grid's edge that way.
    Stay,
}

/// The column (or row) whose anchor is nearest `pos`.
pub open spec fn nearest_cell(pos: i32, start: int, avail: int, len: int) -> int {
    argmin(
        seq![
            dist(pos as int, cell_pos(start, avail, len, 0)),
            dist(pos as int, cell_pos(start, avail, len, 1)),
            dist(pos as int, cell_pos(start, avail, len, 2)),
        ],
        3,
    )
}

/// One arrow press for a window at (`x`, `y`) of size (`pw`, `ph`) on the grid
/// over `work`: the current cell is the one whose anchor is nearest the
/// window's top-left corner; Left in the first column and Right in the last
/// try the neighbouring output; otherwise the window moves one cell, or stays
/// at the edge.
pub open spec fn spec_one_cell_step(x: i32, y: i32, pw: i32, ph: i32, work: Rect, arrow: ArrowDir) -> CellStep {
    let w = clamp_to(pw as int, 1, work.w as int);
    let h = clamp_to(ph as int, 1, work.h as int);
    let col = nearest_cell(x, work.x as int, work.w as int, w);
    let row = nearest_cell(y, work.y as int, work.h as int, h);
    if arrow == ArrowDir::Left && col == 0 {
        CellStep::Cross(ArrowDir::Left, row as i32)
    } else if arrow == ArrowDir::Right && col == 2 {
        CellStep::Cross(ArrowDir::Right, row as i32)
    } else {
        let (nc, nr) = match arrow {
            ArrowDir::Left => (max_of(col - 1, 0), row),
            ArrowDir::Right => (if col + 1 <= 2 { col + 1 } else { 2 }, row),
            ArrowDir::Up => (col, max_of(row - 1, 0)),
            ArrowDir::Down => (col, if row + 1 <= 2 { row + 1 } else { 2 }),
        };
        if nc == col && nr == row {
            CellStep::Stay
        } else {
            CellStep::Move(spec_zone_from_grid(nc as i32, nr as i32))
        }
    }
}

fn nearest_anchor(pos: i32, start: i32, avail: i32, len: i32) -> (r: i32)
    requires
        1 <= len <= avail,
        fits(start + avail),
    ensures
        r == nearest_cell(pos, start as int, avail as int, len as int),
        0 <= r <= 2,
{
    let a0 = start as i64;
    let a1 = start as i64 + ((avail - len) / 2) as i64;
    let a2 = start as i64 + avail as i64 - len as i64;
    let p = pos as i64;
    let d0 = if p >= a0 {
        p - a0
    } else {
        a0 - p
    };
    let d1 = if p >= a1 {
        p - a1
    } else {
        a1 - p
    };
    let d2 = if p >= a2 {
        p - a2
    } else {
        a2 - p
    };
    let mut best: i32 = 0;
    let mut best_d = d0;
    if d1 < best_d {
        best = 1;
        best_d = d1;
    }
    if d2 < best_d {
        best = 2;
    }
    proof {
        let s = seq![
            dist(pos as int, cell_pos(start as int, avail as int, len as int, 0)),
            dist(pos as int, cell_pos(start as int, avail as int, len as int, 1)),
            dist(pos as int, cell_pos(start as int, avail as int, len as int, 2)),
        ];
        assert(s[0] == d0 && s[1] == d1 && s[2] == d2);
        reveal_with_fuel(argmin, 3);
    }
    best
}

/// One arrow press on the move grid (see [`spec_one_cell_step`]).
pub fn one_cell_step(x: i32, y: i32, pw: i32, ph: i32, work: Rect, arrow: ArrowDir) -> (r: CellStep)
    requires
        grid_fits(work),
    ensures
        r == spec_one_cell_step(x, y, pw, ph, work, arrow),
{
    let w = clamp_i32(pw, 1, work.w);
    let h = clamp_i32(ph, 1, work.h);
    let col = nearest_anchor(x, work.x, work.w, w);
    let row = nearest_anchor(y, work.y, work.h, h);
    match arrow {
        ArrowDir::Left => {
            if col == 0 {
                return CellStep::Cross(ArrowDir::Left, row);
            }
        },
        ArrowDir::Right => {
            if col == 2 {
                return CellStep::Cross(ArrowDir::Right, row);
            }
        },
        _ => {},
    }
    let (nc, nr) = match arrow {
        ArrowDir::Left => (max_i32(col - 1, 0), row),
        ArrowDir::Right => (if col + 1 <= 2 {
            col + 1
        } else {
            2
        }, row),
        ArrowDir::Up => (col, max_i32(row - 1, 0)),
        ArrowDir::Down => (col, if row + 1 <= 2 {
            row + 1
        } else {
            2
        }),
    };
    if nc == col && nr == row {
        CellStep::Stay
    } else {
        CellStep::Move(zone_from_grid(nc, nr))
    }
}

/// Among `outputs` other than `current`, the first nearest one lying wholly
/// to the left (or right) of `cur`, by the gap between their facing edges.
pub open spec fn spec_adjacent_output(cur: Rect, outputs: Seq<Rect>, current: int, arrow: ArrowDir, n: int) -> Option<int>
    decreases n,
{
    if n <= 0 {
        None
    } else {
        let prev = spec_adjacent_output(cur, outputs, current, arrow, n - 1);
        let o = outputs[n - 1];
        let d = match arrow {
            ArrowDir::Left => cur.x - (o.x + o.w),
            ArrowDir::Right => o.x - (cur.x + cur.w),
            _ => -1,
        };
        let dp = match prev {
            Some(p) => match arrow {
                ArrowDir::Left => cur.x - (outputs[p].x + outputs[p].w),
                _ => outputs[p].x - (cur.x + cur.w),
            },
            None => 0,
        };
        if n - 1 == current || d < 0 {
            prev
        } else if prev is None || d < dp {
            Some(n - 1)
        } else {
            prev
        }
    }
}

proof fn lemma_adjacent_range(cur: Rect, outputs: Seq<Rect>, current: int, arrow: ArrowDir, n: int)
    requires
        0 <= n,
    ensures
        spec_adjacent_output(cur, outputs, current, arrow, n) matches Some(j) ==> 0 <= j < n,
    decreases n,
{
    if n > 0 {
        lemma_adjacent_range(cur, outputs, current, arrow, n - 1);
    }
}

/// The output a Left/Right jump goes to (see [`spec_adjacent_output`]);
/// `current` is the index of the window's own output, `cur` its geometry.
pub fn adjacent_output(cur: Rect, outputs: &Vec<Rect>, current: usize, arrow: ArrowDir) -> (r: Option<usize>)
    ensures
        r == match spec_adjacent_output(cur, outputs@, current as int, arrow, outputs@.len() as int) {
            Some(j) => Some(j as usize),
            None => None::<usize>,
        },
{
    let mut best: Option<usize> = None;
    let mut best_d: i64 = 0;
    let mut i: usize = 0;
    while i < outputs.len()
        invariant
            i <= outputs@.len(),
            best == match spec_adjacent_output(cur, outputs@, current as int, arrow, i as int) {
                Some(j) => Some(j as usize),
                None => None::<usize>,
            },
            best matches Some(j) ==> j < i && best_d == match arrow {
                ArrowDir::Left => cur.x - (outputs@[j as int].x + outputs@[j as int].w),
                _ => outputs@[j as int].x - (cur.x + cur.w),
            },
        decreases outputs@.len() - i,
    {
        proof {
            lemma_adjacent_range(cur, outputs@, current as int, arrow, i as int);
        }
        if i != current {
            let o = outputs[i];
            let d: i64 = match arrow {
                ArrowDir::Left => cur.x as i64 - (o.x as i64 + o.w as i64),
                ArrowDir::Right => o.x as i64 - (cur.x as i64 + cur.w as i64),
                _ => -1,
            };
            if d >= 0 {
                if best.is_none() || d < best_d {
                    best = Some(i);
                    best_d = d;
                }
            }
        }
        i += 1;
    }
    proof {
        lemma_adjacent_range(cur, outputs@, current as int, arrow, i as int);
    }
    best
}

/// Where a window of size (`pw`, `ph`) lands on the neighbouring output's
/// grid area `work`: in the column facing the jump, in row `row`.
pub open spec fn spec_cross_target(work: Rect, arrow: ArrowDir, row: i32, pw: i32, ph: i32) -> Rect {
    let w = clamp_to(pw as int, 1, work.w as int);
    let h = clamp_to(ph as int, 1, work.h as int);
    let x = if arrow == ArrowDir::Left {
        work.x + work.w - w
    } else {
        work.x as int
    };
    let r = if row == 0 {
        0
    } else if row == 1 {
        1
    } else {
        2
    };
    Rect { x: x as i32, y: cell_pos(work.y as int, work.h as int, h, r) as i32, w: w as i32, h: h as i32 }
}

/// Where a jump to the neighbouring output lands (see [`spec_cross_target`]).
pub fn cross_target(work: Rect, arrow: ArrowDir, row: i32, pw: i32, ph: i32) -> (r: Rect)
    requires
        grid_fits(work),
    ensures
        r == spec_cross_target(work, arrow, row, pw, ph),
{
    let w = clamp_i32(pw, 1, work.w);
    let h = clamp_i32(ph, 1, work.h);
    let x = match arrow {
        ArrowDir::Left => work.x + work.w - w,
        _ => work.x,
    };
    let y = if row == 0 {
        work.y
    } else if row == 1 {
        work.y + (work.h - h) / 2
    } else {
        work.y + work.h - h
    };
    Rect { x, y, w, h }
}

/// A window that would step past either end of the grid stays; otherwise a
/// step never leaves the grid.
pub proof fn lemma_step_stays_on_grid(x: i32, y: i32, pw: i32, ph: i32, work: Rect, arrow: ArrowDir)
    requires
        grid_fits(work),
    ensures
        spec_one_cell_step(x, y, pw, ph, work, arrow) matches CellStep::Cross(_, row) ==> 0 <= row <= 2,
{
    let w = clamp_to(pw as int, 1, work.w as int);
    let h = clamp_to(ph as int, 1, work.h as int);
    let s = seq![
        dist(y as int, cell_pos(work.y as int, work.h as int, h, 0)),
        dist(y as int, cell_pos(work.y as int, work.h as int, h, 1)),
        dist(y as int, cell_pos(work.y as int, work.h as int, h, 2)),
    ];
    lemma_argmin_range(s, 3);
}

/// One arrow press moves the window to a neighbouring cell. The window's
/// cell is the column and row whose anchor is nearest its top-left corner.
/// A move lands in the cell one step that way (one row up for Up, and so
/// on) in the same column (or row); the window stays only at the top row
/// for Up and the bottom row for Down; Left from the first column and Right
/// from the last try the neighbouring output, keeping the row.
pub proof fn lemma_step_moves_one_cell(x: i32, y: i32, pw: i32, ph: i32, work: Rect, arrow: ArrowDir)
    requires
        grid_fits(work),
    ensures
        ({
            let w = clamp_to(pw as int, 1, work.w as int);
            let h = clamp_to(ph as int, 1, work.h as int);
            let col = nearest_cell(x, work.x as int, work.w as int, w);
            let row = nearest_cell(y, work.y as int, work.h as int, h);
            &&& 0 <= col <= 2 && 0 <= row <= 2
            &&& forall|k: int|
                0 <= k <= 2 ==> dist(x as int, cell_pos(work.x as int, work.w as int, w, col)) <= dist(
                    x as int,
                    #[trigger] cell_pos(work.x as int, work.w as int, w, k),
                )
            &&& forall|k: int|
                0 <= k <= 2 ==> dist(y as int, cell_pos(work.y as int, work.h as int, h, row)) <= dist(
                    y as int,
                    #[trigger] cell_pos(work.y as int, work.h as int, h, k),
                )
            &&& match spec_one_cell_step(x, y, pw, ph, work, arrow) {
                CellStep::Move(z) => {
                    let (c2, r2) = spec_zone_cell(z);
                    match arrow {
                        ArrowDir::Up => c2 == col && r2 == row - 1,
                        ArrowDir::Down => c2 == col && r2 == row + 1,
                        ArrowDir::Left => r2 == row && c2 == col - 1,
                        ArrowDir::Right => r2 == row && c2 == col + 1,
                    }
                },
                CellStep::Stay => (arrow == ArrowDir::Up && row == 0) || (arrow == ArrowDir::Down && row == 2),
                CellStep::Cross(d, r) => d == arrow && r == row && ((arrow == ArrowDir::Left && col == 0) || (arrow
                    == ArrowDir::Right && col == 2)),
            }
        }),
{
    let w = clamp_to(pw as int, 1, work.w as int);
    let h = clamp_to(ph as int, 1, work.h as int);
    let sx = seq![
        dist(x as int, cell_pos(work.x as int, work.w as int, w, 0)),
        dist(x as int, cell_pos(work.x as int, work.w as int, w, 1)),
        dist(x as int, cell_pos(work.x as int, work.w as int, w, 2)),
    ];
    let sy = seq![
        dist(y as int, cell_pos(work.y as int, work.h as int, h, 0)),
        dist(y as int, cell_pos(work.y as int, work.h as int, h, 1)),
        dist(y as int, cell_pos(work.y as int, work.h as int, h, 2)),
    ];
    lemma_argmin_range(sx, 3);
    lemma_argmin_range(sy, 3);
    let col = nearest_cell(x, work.x as int, work.w as int, w);
    let row = nearest_cell(y, work.y as int, work.h as int, h);
    assert forall|k: int| 0 <= k <= 2 implies dist(x as int, cell_pos(work.x as int, work.w as int, w, col)) <= dist(
        x as int,
        #[trigger] cell_pos(work.x as int, work.w as int, w, k),
    ) by {
        assert(sx[col] <= sx[k]);
    }
    assert forall|k: int| 0 <= k <= 2 implies dist(y as int, cell_pos(work.y as int, work.h as int, h, row)) <= dist(
        y as int,
        #[trigger] cell_pos(work.y as int, work.h as int, h, k),
    ) by {
        assert(sy[row] <= sy[k]);
    }
    let (nc, nr) = match arrow {
        ArrowDir::Left => (max_of(col - 1, 0), row),
        ArrowDir::Right => (if col + 1 <= 2 { col + 1 } else { 2 }, row),
        ArrowDir::Up => (col, max_of(row - 1, 0)),
        ArrowDir::Down => (col, if row + 1 <= 2 { row + 1 } else { 2 }),
    };
    lemma_zone_grid_round_trip(MoveZone::Center, nc as i32, nr as i32);
}

/// Centre of a rectangle, halves rounded toward zero.
pub open spec fn rect_center(r: Rect) -> (int, int) {
    (r.x + div_trunc(r.w as int, 2), r.y + div_trunc(r.h as int, 2))
}

/// How far `c` lies from `f` along `arrow` (primary) and across it
/// (secondary), and whether it lies that way at all.
pub open spec fn cone_axes(f: (int, int), c: (int, int), arrow: ArrowDir) -> (int, int, bool) {
    match arrow {
        ArrowDir::Left => (f.0 - c.0, dist(c.1, f.1), c.0 < f.0),
        ArrowDir::Right => (c.0 - f.0, dist(c.1, f.1), c.0 > f.0),
        ArrowDir::Up => (f.1 - c.1, dist(c.0, f.0), c.1 < f.1),
        ArrowDir::Down => (c.1 - f.1, dist(c.0, f.0), c.1 > f.1),
    }
}

/// Among the first `n` windows other than `skip`, the first of the nearest
/// (by primary plus secondary distance) whose centre lies in `arrow` from the
/// focused window's centre within a 45° cone.
pub open spec fn spec_swap_target(focus: Rect, others: Seq<Rect>, skip: int, arrow: ArrowDir, n: int) -> Option<int>
    decreases n,
{
    if n <= 0 {
        None
    } else {
        let prev = spec_swap_target(focus, others, skip, arrow, n - 1);
        let (p, q, ok) = cone_axes(rect_center(focus), rect_center(others[n - 1]), arrow);
        let score = p + q;
        let best = match prev {
            Some(b) => {
                let (bp, bq, _) = cone_axes(rect_center(focus), rect_center(others[b]), arrow);
                bp + bq
            },
            None => 0,
        };
        if n - 1 == skip || !ok || p < q {
            prev
        } else if prev is None || score < best {
            Some(n - 1)
        } else {
            prev
        }
    }
}

proof fn lemma_swap_range(focus: Rect, others: Seq<Rect>, skip: int, arrow: ArrowDir, n: int)
    requires
        0 <= n,
    ensures
        spec_swap_target(focus, others, skip, arrow, n) matches Some(j) ==> 0 <= j < n,
    decreases n,
{
    if n > 0 {
        lemma_swap_range(focus, others, skip, arrow, n - 1);
    }
}

fn center64(r: Rect) -> (c: (i64, i64))
    ensures
        c.0 == rect_center(r).0,
        c.1 == rect_center(r).1,
{
    (r.x as i64 + (r.w / 2) as i64, r.y as i64 + (r.h / 2) as i64)
}

fn abs64(v: i64) -> (r: i64)
    requires
        v > i64::MIN,
    ensures
        r == dist(v as int, 0),
{
    if v >= 0 {
        v
    } else {
        -v
    }
}

/// The window the focused one swaps places with (see [`spec_swap_target`]);
/// `skip` is the focused window's own index in `others`.
pub fn swap_target(focus: Rect, others: &Vec<Rect>, skip: usize, arrow: ArrowDir) -> (r: Option<usize>)
    ensures
        r == match spec_swap_target(focus, others@, skip as int, arrow, others@.len() as int) {
            Some(j) => Some(j as usize),
            None => None::<usize>,
        },
{
    let f = center64(focus);
    let mut best: Option<usize> = None;
    let mut best_score: i64 = 0;
    let mut i: usize = 0;
    while i < others.len()
        invariant
            i <= others@.len(),
            f.0 == rect_center(focus).0,
            f.1 == rect_center(focus).1,
            best == match spec_swap_target(focus, others@, skip as int, arrow, i as int) {
                Some(j) => Some(j as usize),
                None => None::<usize>,
            },
            best matches Some(j) ==> j < i && best_score == {
                let (bp, bq, _) = cone_axes(rect_center(focus), rect_center(others@[j as int]), arrow);
                bp + bq
            },
        decreases others@.len() - i,
    {
        proof {
            lemma_swap_range(focus, others@, skip as int, arrow, i as int);
        }
        if i != skip {
            let c = center64(others[i]);
            let (p, q, ok) = match arrow {
                ArrowDir::Left => (f.0 - c.0, abs64(c.1 - f.1), c.0 < f.0),
                ArrowDir::Right => (c.0 - f.0, abs64(c.1 - f.1), c.0 > f.0),
                ArrowDir::Up => (f.1 - c.1, abs64(c.0 - f.0), c.1 < f.1),
                ArrowDir::Down => (c.1 - f.1, abs64(c.0 - f.0), c.1 > f.1),
            };
            if ok && p >= q {
                let score = p + q;
                if best.is_none() || score < best_score {
                    best = Some(i);
                    best_score = score;
                }
            }
        }
        i += 1;
    }
    proof {
        lemma_swap_range(focus, others@, skip as int, arrow, i as int);
    }
    best
}

/// Smallest restore size worth keeping.
pub const MIN_RESTORE_DIM: i32 = 200;

/// A restore rectangle is kept when it is at least the minimum size, overlaps
/// the output and is at most twice the output's size; otherwise it is
/// replaced by the output's ~70% size (`fallback_w`, `fallback_h`, computed
/// by the caller), limited to the minimum and the output, centred on it.
pub open spec fn spec_sanitize_restore(rect: Rect, out: Rect, fallback_w: i32, fallback_h: i32) -> Rect {
    let big_enough = rect.w >= MIN_RESTORE_DIM && rect.h >= MIN_RESTORE_DIM;
    let intersects_well = rect.spec_overlaps(out) && rect.w <= out.w * 2 && rect.h <= out.h * 2;
    if big_enough && intersects_well {
        rect
    } else {
        let w = crate::geometry::min_of(max_of(fallback_w as int, MIN_RESTORE_DIM as int), out.w as int);
        let h = crate::geometry::min_of(max_of(fallback_h as int, MIN_RESTORE_DIM as int), out.h as int);
        Rect {
            x: (out.x + div_trunc(out.w - w, 2)) as i32,
            y: (out.y + div_trunc(out.h - h, 2)) as i32,
            w: w as i32,
            h: h as i32,
        }
    }
}

/// The centring of the fallback stays within `i32`.
pub open spec fn restore_fits(out: Rect, fallback_w: i32, fallback_h: i32) -> bool {
    let w = crate::geometry::min_of(max_of(fallback_w as int, MIN_RESTORE_DIM as int), out.w as int);
    let h = crate::geometry::min_of(max_of(fallback_h as int, MIN_RESTORE_DIM as int), out.h as int);
    &&& fits(out.w - w)
    &&& fits(out.h - h)
    &&& fits(out.x + div_trunc(out.w - w, 2))
    &&& fits(out.y + div_trunc(out.h - h, 2))
}

/// Repair a pre-maximize restore rectangle (see [`spec_sanitize_restore`]).
pub fn sanitize_restore_rect(rect: Rect, out: Rect, fallback_w: i32, fallback_h: i32) -> (r: Rect)
    requires
        restore_fits(out, fallback_w, fallback_h),
    ensures
        r == spec_sanitize_restore(rect, out, fallback_w, fallback_h),
{
    let big_enough = rect.w >= MIN_RESTORE_DIM && rect.h >= MIN_RESTORE_DIM;
    let intersects_well = rect.overlaps(&out) && (rect.w as i64) <= (out.w as i64) * 2 && (rect.h as i64)
        <= (out.h as i64) * 2;
    if big_enough && intersects_well {
        return rect;
    }
    let w = crate::geometry::min_i32(max_i32(fallback_w, MIN_RESTORE_DIM), out.w);
    let h = crate::geometry::min_i32(max_i32(fallback_h, MIN_RESTORE_DIM), out.h);
    Rect { x: out.x + (out.w - w) / 2, y: out.y + (out.h - h) / 2, w, h }
}

/// Repairing a restore rectangle twice gives the same as once, for a fixed
/// fallback size: a kept rectangle stays kept, and the fallback is the
/// fallback again.
pub proof fn lemma_sanitize_restore_idempotent(rect: Rect, out: Rect, fallback_w: i32, fallback_h: i32)
    ensures
        spec_sanitize_restore(spec_sanitize_restore(rect, out, fallback_w, fallback_h), out, fallback_w, fallback_h)
            == spec_sanitize_restore(rect, out, fallback_w, fallback_h),
{
}

} // verus!
