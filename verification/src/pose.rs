//! Poses: the seven slots a focused window can be posed into (left, middle
//! and right halves, a small centred rung, four corners), the key-driven
//! moves between them, and the rectangle of each slot on an output.

use vstd::prelude::*;

use crate::geometry::{div_trunc, max_of, max_i32, min_of, min_i32, Rect};
use crate::snap::{fits, Insets};

verus! {

/// Outer gap of a posed window to the usable area's edges.
pub const POSE_OUTER_GAP: i32 = 40;

/// A pose slot.
#[derive(Clone, Copy, Debug, PartialEq, Eq, Structural)]
pub enum PoseSlot {
    Left,
    Middle,
    Right,
    /// Corner-sized, centred on the work area: the rung below Middle.
    Tiny,
    TopLeft,
    TopRight,
    BottomLeft,
    BottomRight,
}

/// Direction of a corner or side move.
#[derive(Clone, Copy, Debug, PartialEq, Eq, Structural)]
pub enum CornerDir {
    Left,
    Right,
    Up,
    Down,
}

impl PoseSlot {
    pub open spec fn spec_is_corner(self) -> bool {
        self is TopLeft || self is TopRight || self is BottomLeft || self is BottomRight
    }

    pub open spec fn spec_is_half(self) -> bool {
        self is Left || self is Right
    }

    /// Whether this is one of the four corner slots.
    pub fn is_corner(self) -> (r: bool)
        ensures
            r == self.spec_is_corner(),
    {
        match self {
            PoseSlot::TopLeft | PoseSlot::TopRight | PoseSlot::BottomLeft | PoseSlot::BottomRight => true,
            _ => false,
        }
    }

    /// Whether this is the left or the right half.
    pub fn is_half(self) -> (r: bool)
        ensures
            r == self.spec_is_half(),
    {
        match self {
            PoseSlot::Left | PoseSlot::Right => true,
            _ => false,
        }
    }
}

/// Slot after a "half left" press from `cur` (`None`: the press does nothing).
pub open spec fn spec_half_left_next(cur: Option<PoseSlot>) -> Option<PoseSlot> {
    match cur {
        Some(PoseSlot::Left) => None,
        Some(PoseSlot::Middle) => Some(PoseSlot::Left),
        Some(PoseSlot::Right) => Some(PoseSlot::Middle),
        Some(_) => Some(PoseSlot::Middle),
        None => Some(PoseSlot::Left),
    }
}

/// Slot after a "half right" press from `cur` (`None`: the press does nothing).
pub open spec fn spec_half_right_next(cur: Option<PoseSlot>) -> Option<PoseSlot> {
    match cur {
        Some(PoseSlot::Right) => None,
        Some(PoseSlot::Middle) => Some(PoseSlot::Right),
        Some(PoseSlot::Left) => Some(PoseSlot::Middle),
        Some(_) => Some(PoseSlot::Middle),
        None => Some(PoseSlot::Right),
    }
}

/// Left cycles Right → Middle → Left; corners and Tiny step out to Middle;
/// an unposed window goes Left.
pub fn half_left_next(cur: Option<PoseSlot>) -> (r: Option<PoseSlot>)
    ensures
        r == spec_half_left_next(cur),
{
    match cur {
        Some(PoseSlot::Left) => None,
        Some(PoseSlot::Middle) => Some(PoseSlot::Left),
        Some(PoseSlot::Right) => Some(PoseSlot::Middle),
        Some(_) => Some(PoseSlot::Middle),
        None => Some(PoseSlot::Left),
    }
}

/// Right cycles Left → Middle → Right; corners and Tiny step out to Middle;
/// an unposed window goes Right.
pub fn half_right_next(cur: Option<PoseSlot>) -> (r: Option<PoseSlot>)
    ensures
        r == spec_half_right_next(cur),
{
    match cur {
        Some(PoseSlot::Right) => None,
        Some(PoseSlot::Middle) => Some(PoseSlot::Right),
        Some(PoseSlot::Left) => Some(PoseSlot::Middle),
        Some(_) => Some(PoseSlot::Middle),
        None => Some(PoseSlot::Right),
    }
}

/// A half-posed window shrinks into the bottom corner of its side.
pub fn corner_shrink_down(cur: Option<PoseSlot>) -> (r: Option<PoseSlot>)
    ensures
        r == match cur {
            Some(PoseSlot::Left) => Some(PoseSlot::BottomLeft),
            Some(PoseSlot::Right) => Some(PoseSlot::BottomRight),
            _ => None,
        },
{
    match cur {
        Some(PoseSlot::Left) => Some(PoseSlot::BottomLeft),
        Some(PoseSlot::Right) => Some(PoseSlot::BottomRight),
        _ => None,
    }
}

/// A half-posed window shrinks into the top corner of its side.
pub fn corner_shrink_up(cur: Option<PoseSlot>) -> (r: Option<PoseSlot>)
    ensures
        r == match cur {
            Some(PoseSlot::Left) => Some(PoseSlot::TopLeft),
            Some(PoseSlot::Right) => Some(PoseSlot::TopRight),
            _ => None,
        },
{
    match cur {
        Some(PoseSlot::Left) => Some(PoseSlot::TopLeft),
        Some(PoseSlot::Right) => Some(PoseSlot::TopRight),
        _ => None,
    }
}

/// The half of a corner's column.
pub open spec fn spec_uncorner(cur: Option<PoseSlot>) -> Option<PoseSlot> {
    match cur {
        Some(PoseSlot::TopLeft) | Some(PoseSlot::BottomLeft) => Some(PoseSlot::Left),
        Some(PoseSlot::TopRight) | Some(PoseSlot::BottomRight) => Some(PoseSlot::Right),
        _ => None,
    }
}

/// A corner-posed window steps back out to the half of its column.
pub fn uncorner_to_half(cur: Option<PoseSlot>) -> (r: Option<PoseSlot>)
    ensures
        r == spec_uncorner(cur),
{
    match cur {
        Some(PoseSlot::TopLeft) | Some(PoseSlot::BottomLeft) => Some(PoseSlot::Left),
        Some(PoseSlot::TopRight) | Some(PoseSlot::BottomRight) => Some(PoseSlot::Right),
        _ => None,
    }
}

/// Tiny steps back up to Middle.
pub fn untiny_to_middle(cur: Option<PoseSlot>) -> (r: Option<PoseSlot>)
    ensures
        r == if cur == Some(PoseSlot::Tiny) {
            Some(PoseSlot::Middle)
        } else {
            None
        },
{
    match cur {
        Some(PoseSlot::Tiny) => Some(PoseSlot::Middle),
        _ => None,
    }
}

/// One rung of the Shift+Super+Up/Down size ladders.
#[derive(Clone, Copy, Debug, PartialEq, Eq, Structural)]
pub enum LadderStep {
    /// Restore the most recently minimized window.
    RestoreMinimized,
    /// Pose the focused window into a slot.
    Pose(PoseSlot),
    Maximize,
    Unmaximize,
    SoloTile,
    Unsolo,
    Minimize,
}

/// `seq![Pose(t)]` for a pose move that applies, else nothing.
pub open spec fn pose_step(t: Option<PoseSlot>) -> Seq<LadderStep> {
    match t {
        Some(slot) => seq![LadderStep::Pose(slot)],
        None => Seq::empty(),
    }
}

/// The Shift+Super+Up ladder, as the steps to try in order until one takes
/// (the answer is the last step tried): the most recently minimized window
/// comes back first and alone; otherwise a corner steps out to its half, Tiny
/// back up to Middle, a half into its top corner; then an unposed focused
/// window grows, normal to solo-tiled to maximized.
pub open spec fn spec_ladder_size_up(has_minimized: bool, focused: bool, pose: Option<PoseSlot>, maximized: bool, solo: bool) -> Seq<LadderStep> {
    if has_minimized {
        seq![LadderStep::RestoreMinimized]
    } else if !focused {
        Seq::empty()
    } else {
        let half_up = match pose {
            Some(PoseSlot::Left) => Some(PoseSlot::TopLeft),
            Some(PoseSlot::Right) => Some(PoseSlot::TopRight),
            _ => None,
        };
        let middle = if pose == Some(PoseSlot::Tiny) { Some(PoseSlot::Middle) } else { None };
        pose_step(spec_uncorner(pose)) + pose_step(middle) + pose_step(half_up) + if maximized {
            Seq::<LadderStep>::empty()
        } else if solo {
            seq![LadderStep::Maximize]
        } else {
            seq![LadderStep::SoloTile]
        }
    }
}

/// The steps of the Shift+Super+Up ladder (see [`spec_ladder_size_up`]);
/// `pose` is the focused window's pose, `maximized` and `solo` its state.
pub fn ladder_size_up(has_minimized: bool, focused: bool, pose: Option<PoseSlot>, maximized: bool, solo: bool) -> (r: Vec<LadderStep>)
    ensures
        r@ == spec_ladder_size_up(has_minimized, focused, pose, maximized, solo),
{
    let mut steps: Vec<LadderStep> = Vec::new();
    if has_minimized {
        steps.push(LadderStep::RestoreMinimized);
        assert(steps@ =~= spec_ladder_size_up(has_minimized, focused, pose, maximized, solo));
        return steps;
    }
    if !focused {
        assert(steps@ =~= spec_ladder_size_up(has_minimized, focused, pose, maximized, solo));
        return steps;
    }
    if let Some(t) = uncorner_to_half(pose) {
        steps.push(LadderStep::Pose(t));
    }
    if let Some(t) = untiny_to_middle(pose) {
        steps.push(LadderStep::Pose(t));
    }
    if let Some(t) = corner_shrink_up(pose) {
        steps.push(LadderStep::Pose(t));
    }
    if !maximized {
        if solo {
            steps.push(LadderStep::Maximize);
        } else {
            steps.push(LadderStep::SoloTile);
        }
    }
    assert(steps@ =~= spec_ladder_size_up(has_minimized, focused, pose, maximized, solo));
    steps
}

/// The Shift+Super+Down ladder, as the steps to try in order until one
/// takes: maximized comes down to solo-tiled, solo-tiled to normal; a half
/// shrinks into its bottom corner; a corner steps back out to its half
/// (corners never minimize); Tiny minimizes; anything else shrinks to Tiny.
pub open spec fn spec_ladder_size_down(focused: bool, pose: Option<PoseSlot>, maximized: bool, solo: bool) -> Seq<LadderStep> {
    if !focused {
        Seq::empty()
    } else if maximized {
        seq![LadderStep::Unmaximize]
    } else if solo {
        seq![LadderStep::Unsolo]
    } else {
        let half_down = match pose {
            Some(PoseSlot::Left) => Some(PoseSlot::BottomLeft),
            Some(PoseSlot::Right) => Some(PoseSlot::BottomRight),
            _ => None,
        };
        pose_step(half_down) + match pose {
            Some(slot) => if slot.spec_is_corner() {
                pose_step(spec_uncorner(pose))
            } else if slot == PoseSlot::Tiny {
                seq![LadderStep::Minimize]
            } else {
                seq![LadderStep::Pose(PoseSlot::Tiny)]
            },
            None => seq![LadderStep::Pose(PoseSlot::Tiny)],
        }
    }
}

/// The steps of the Shift+Super+Down ladder (see [`spec_ladder_size_down`]).
pub fn ladder_size_down(focused: bool, pose: Option<PoseSlot>, maximized: bool, solo: bool) -> (r: Vec<LadderStep>)
    ensures
        r@ == spec_ladder_size_down(focused, pose, maximized, solo),
{
    let mut steps: Vec<LadderStep> = Vec::new();
    if !focused {
    } else if maximized {
        steps.push(LadderStep::Unmaximize);
    } else if solo {
        steps.push(LadderStep::Unsolo);
    } else {
        if let Some(t) = corner_shrink_down(pose) {
            steps.push(LadderStep::Pose(t));
        }
        match pose {
            Some(slot) => {
                if slot.is_corner() {
                    if let Some(t) = uncorner_to_half(pose) {
                        steps.push(LadderStep::Pose(t));
                    }
                } else if slot == PoseSlot::Tiny {
                    steps.push(LadderStep::Minimize);
                } else {
                    steps.push(LadderStep::Pose(PoseSlot::Tiny));
                }
            },
            None => steps.push(LadderStep::Pose(PoseSlot::Tiny)),
        }
    }
    assert(steps@ =~= spec_ladder_size_down(focused, pose, maximized, solo));
    steps
}

/// The down ladder minimizes only a window in the Tiny slot: never from a
/// corner, a half, the middle, or an unposed window.
pub proof fn lemma_ladder_minimizes_only_tiny(focused: bool, pose: Option<PoseSlot>, maximized: bool, solo: bool)
    ensures
        spec_ladder_size_down(focused, pose, maximized, solo).contains(LadderStep::Minimize) ==> pose == Some(
            PoseSlot::Tiny,
        ),
{
    let steps = spec_ladder_size_down(focused, pose, maximized, solo);
    if steps.contains(LadderStep::Minimize) {
        let k = choose|k: int| 0 <= k < steps.len() && steps[k] == LadderStep::Minimize;
        assert(steps[k] == LadderStep::Minimize);
    }
}

/// Whether the current pose is a corner.
pub fn is_corner_posed(cur: Option<PoseSlot>) -> (r: bool)
    ensures
        r == (cur matches Some(s) && s.spec_is_corner()),
{
    match cur {
        Some(s) => s.is_corner(),
        None => false,
    }
}

/// A half-posed window jumps to the other side, skipping Middle.
pub fn swap_half_side(cur: Option<PoseSlot>, dir: CornerDir) -> (r: Option<PoseSlot>)
    ensures
        r == match (cur, dir) {
            (Some(PoseSlot::Left), CornerDir::Right) => Some(PoseSlot::Right),
            (Some(PoseSlot::Right), CornerDir::Left) => Some(PoseSlot::Left),
            _ => None,
        },
{
    match (cur, dir) {
        (Some(PoseSlot::Left), CornerDir::Right) => Some(PoseSlot::Right),
        (Some(PoseSlot::Right), CornerDir::Left) => Some(PoseSlot::Left),
        _ => None,
    }
}

/// The corner reached from corner `cur` toward `dir`; `None` at the edge or
/// when `cur` is not a corner.
pub open spec fn spec_move_corner(cur: Option<PoseSlot>, dir: CornerDir) -> Option<PoseSlot> {
    match (cur, dir) {
        (Some(PoseSlot::TopRight), CornerDir::Left) => Some(PoseSlot::TopLeft),
        (Some(PoseSlot::BottomRight), CornerDir::Left) => Some(PoseSlot::BottomLeft),
        (Some(PoseSlot::TopLeft), CornerDir::Right) => Some(PoseSlot::TopRight),
        (Some(PoseSlot::BottomLeft), CornerDir::Right) => Some(PoseSlot::BottomRight),
        (Some(PoseSlot::BottomLeft), CornerDir::Up) => Some(PoseSlot::TopLeft),
        (Some(PoseSlot::BottomRight), CornerDir::Up) => Some(PoseSlot::TopRight),
        (Some(PoseSlot::TopLeft), CornerDir::Down) => Some(PoseSlot::BottomLeft),
        (Some(PoseSlot::TopRight), CornerDir::Down) => Some(PoseSlot::BottomRight),
        _ => None,
    }
}

/// Move a corner-posed window to the neighbouring corner (see [`spec_move_corner`]).
pub fn move_corner(cur: Option<PoseSlot>, dir: CornerDir) -> (r: Option<PoseSlot>)
    ensures
        r == spec_move_corner(cur, dir),
{
    let c = match cur {
        Some(s) => {
            if !s.is_corner() {
                return None;
            }
            s
        },
        None => return None,
    };
    match (c, dir) {
        (PoseSlot::TopRight, CornerDir::Left) => Some(PoseSlot::TopLeft),
        (PoseSlot::BottomRight, CornerDir::Left) => Some(PoseSlot::BottomLeft),
        (PoseSlot::TopLeft, CornerDir::Right) => Some(PoseSlot::TopRight),
        (PoseSlot::BottomLeft, CornerDir::Right) => Some(PoseSlot::BottomRight),
        (PoseSlot::BottomLeft, CornerDir::Up) => Some(PoseSlot::TopLeft),
        (PoseSlot::BottomRight, CornerDir::Up) => Some(PoseSlot::TopRight),
        (PoseSlot::TopLeft, CornerDir::Down) => Some(PoseSlot::BottomLeft),
        (PoseSlot::TopRight, CornerDir::Down) => Some(PoseSlot::BottomRight),
        _ => None,
    }
}

/// The direction back.
pub open spec fn reverse_dir(d: CornerDir) -> CornerDir {
    match d {
        CornerDir::Left => CornerDir::Right,
        CornerDir::Right => CornerDir::Left,
        CornerDir::Up => CornerDir::Down,
        CornerDir::Down => CornerDir::Up,
    }
}

/// A corner move is undone by the move in the opposite direction, and it
/// always lands on a corner.
pub proof fn lemma_move_corner_undo(cur: Option<PoseSlot>, dir: CornerDir)
    ensures
        spec_move_corner(cur, dir) matches Some(n) ==> n.spec_is_corner() && spec_move_corner(
            Some(n),
            reverse_dir(dir),
        ) == cur,
{
}

/// Stepping between the halves is undone by the press the other way: from
/// Middle or Right, "left" then "right" comes back; from Middle or Left,
/// "right" then "left" comes back.
pub proof fn lemma_half_steps_undo(cur: PoseSlot)
    ensures
        (cur == PoseSlot::Middle || cur == PoseSlot::Right) ==> spec_half_right_next(
            spec_half_left_next(Some(cur)),
        ) == Some(cur),
        (cur == PoseSlot::Middle || cur == PoseSlot::Left) ==> spec_half_left_next(
            spec_half_right_next(Some(cur)),
        ) == Some(cur),
{
}

/// Shrinking a half into a corner and stepping back out returns to the half.
pub proof fn lemma_corner_round_trip(cur: PoseSlot)
    requires
        cur.spec_is_half(),
    ensures
        spec_uncorner(
            match cur {
                PoseSlot::Left => Some(PoseSlot::BottomLeft),
                _ => Some(PoseSlot::BottomRight),
            },
        ) == Some(cur),
        spec_uncorner(
            match cur {
                PoseSlot::Left => Some(PoseSlot::TopLeft),
                _ => Some(PoseSlot::TopRight),
            },
        ) == Some(cur),
{
}

/// Corner size: two fit side by side with `middle` between them, at least 1.
pub open spec fn spec_quarter_size(work_w: i32, work_h: i32, middle: i32) -> (int, int) {
    (max_of(div_trunc(work_w - middle, 2), 1), max_of(div_trunc(work_h - middle, 2), 1))
}

/// Corner size (see [`spec_quarter_size`]).
pub fn quarter_size(work_w: i32, work_h: i32, middle: i32) -> (r: (i32, i32))
    requires
        fits(work_w - middle),
        fits(work_h - middle),
    ensures
        r.0 == spec_quarter_size(work_w, work_h, middle).0,
        r.1 == spec_quarter_size(work_w, work_h, middle).1,
{
    let w = max_i32((work_w - middle) / 2, 1);
    let h = max_i32((work_h - middle) / 2, 1);
    (w, h)
}

/// Every intermediate of [`pose_work_area`] is an `i32`.
pub open spec fn pose_area_fits(geo: Rect, ins: Insets) -> bool {
    let o = POSE_OUTER_GAP as int;
    &&& fits(geo.x + ins.left)
    &&& fits(geo.x + ins.left + o)
    &&& fits(geo.y + ins.top)
    &&& fits(geo.y + ins.top + o)
    &&& fits(geo.w - ins.left)
    &&& fits(geo.w - ins.left - ins.right)
    &&& fits(geo.w - ins.left - ins.right - o * 2)
    &&& fits(geo.h - ins.top)
    &&& fits(geo.h - ins.top - ins.bottom)
    &&& fits(geo.h - ins.top - ins.bottom - o * 2)
}

/// The usable area of an output minus its panels, inset by the outer gap;
/// `None` when nothing is left.
pub open spec fn spec_pose_work_area(geo: Rect, ins: Insets) -> Option<Rect> {
    let o = POSE_OUTER_GAP as int;
    let w = geo.w - ins.left - ins.right - o * 2;
    let h = geo.h - ins.top - ins.bottom - o * 2;
    if w <= 0 || h <= 0 {
        None
    } else {
        Some(Rect { x: (geo.x + ins.left + o) as i32, y: (geo.y + ins.top + o) as i32, w: w as i32, h: h as i32 })
    }
}

/// The pose work area (see [`spec_pose_work_area`]).
pub fn pose_work_area(geo: Rect, ins: Insets) -> (r: Option<Rect>)
    requires
        pose_area_fits(geo, ins),
    ensures
        r == spec_pose_work_area(geo, ins),
{
    let outer = POSE_OUTER_GAP;
    let work_x = geo.x + ins.left + outer;
    let work_y = geo.y + ins.top + outer;
    let work_w = geo.w - ins.left - ins.right - outer * 2;
    let work_h = geo.h - ins.top - ins.bottom - outer * 2;
    if work_w <= 0 || work_h <= 0 {
        return None;
    }
    Some(Rect { x: work_x, y: work_y, w: work_w, h: work_h })
}

/// `(w, h)` centred in `work`.
pub open spec fn centered(work: Rect, w: int, h: int) -> Rect {
    Rect { x: (work.x + (work.w - w) / 2) as i32, y: (work.y + (work.h - h) / 2) as i32, w: w as i32, h: h as i32 }
}

/// The window's default size (1500×1000 unless configured), shrunk to fit
/// and centred in the work area.
pub open spec fn spec_middle_rect(work: Rect, default_size: Option<(i32, i32)>) -> Rect {
    let (dw, dh) = match default_size {
        Some(d) => d,
        None => (1500i32, 1000i32),
    };
    centered(work, min_of(dw as int, work.w as int), min_of(dh as int, work.h as int))
}

/// A slot's rectangle inside the (non-empty) work area `work`; `None` for a
/// half when the work area is too narrow for the middle gap.
pub open spec fn spec_slot_rect(work: Rect, slot: PoseSlot, default_size: Option<(i32, i32)>) -> Option<Rect> {
    let o = POSE_OUTER_GAP as int;
    let (qw, qh) = spec_quarter_size(work.w, work.h, POSE_OUTER_GAP);
    match slot {
        PoseSlot::Middle => Some(spec_middle_rect(work, default_size)),
        PoseSlot::Left | PoseSlot::Right => {
            let middle = o / 2;
            if work.w <= middle {
                None
            } else {
                let half_w = (work.w - middle) / 2;
                match slot {
                    PoseSlot::Left => Some(Rect { x: work.x, y: work.y, w: half_w as i32, h: work.h }),
                    _ => Some(
                        Rect {
                            x: (work.x + half_w + middle) as i32,
                            y: work.y,
                            w: (work.w - half_w - middle) as i32,
                            h: work.h,
                        },
                    ),
                }
            }
        },
        PoseSlot::Tiny => Some(centered(work, qw, qh)),
        _ => {
            let x = if slot is TopLeft || slot is BottomLeft {
                work.x as int
            } else {
                work.x + work.w - qw
            };
            let y = if slot is TopLeft || slot is TopRight {
                work.y as int
            } else {
                work.y + work.h - qh
            };
            Some(Rect { x: x as i32, y: y as i32, w: qw as i32, h: qh as i32 })
        },
    }
}

/// The rectangle of a slot on an output: `None` when the output has no
/// usable area left (or, for a half, too little width).
pub open spec fn spec_pose_rect(geo: Rect, ins: Insets, slot: PoseSlot, default_size: Option<(i32, i32)>) -> Option<Rect> {
    match spec_pose_work_area(geo, ins) {
        None => None,
        Some(work) => spec_slot_rect(work, slot, default_size),
    }
}

/// The Middle slot's centring stays within `i32` (it can only fail for a
/// configured default size that is hugely negative).
pub open spec fn middle_fits(work: Rect, default_size: Option<(i32, i32)>) -> bool {
    let (dw, dh) = match default_size {
        Some(d) => d,
        None => (1500i32, 1000i32),
    };
    let w = min_of(dw as int, work.w as int);
    let h = min_of(dh as int, work.h as int);
    &&& fits(work.w - w)
    &&& fits(work.h - h)
    &&& fits(work.x + (work.w - w) / 2)
    &&& fits(work.y + (work.h - h) / 2)
}

/// A slot's rectangle in a non-empty work area (see [`spec_slot_rect`]).
pub fn slot_rect(work: Rect, slot: PoseSlot, default_size: Option<(i32, i32)>) -> (r: Option<Rect>)
    requires
        work.w > 0,
        work.h > 0,
        fits(work.x + work.w),
        fits(work.y + work.h),
        slot == PoseSlot::Middle ==> middle_fits(work, default_size),
    ensures
        r == spec_slot_rect(work, slot, default_size),
{
    let outer = POSE_OUTER_GAP;
    match slot {
        PoseSlot::Middle => {
            let (dw, dh) = match default_size {
                Some(d) => d,
                None => (1500i32, 1000i32),
            };
            let w = min_i32(dw, work.w);
            let h = min_i32(dh, work.h);
            Some(Rect { x: work.x + (work.w - w) / 2, y: work.y + (work.h - h) / 2, w, h })
        },
        PoseSlot::Left | PoseSlot::Right => {
            let middle = outer / 2;
            if work.w <= middle {
                return None;
            }
            let half_w = (work.w - middle) / 2;
            match slot {
                PoseSlot::Left => Some(Rect { x: work.x, y: work.y, w: half_w, h: work.h }),
                _ => Some(Rect { x: work.x + half_w + middle, y: work.y, w: work.w - half_w - middle, h: work.h }),
            }
        },
        PoseSlot::Tiny => {
            let (w, h) = quarter_size(work.w, work.h, outer);
            Some(Rect { x: work.x + (work.w - w) / 2, y: work.y + (work.h - h) / 2, w, h })
        },
        _ => {
            let (w, h) = quarter_size(work.w, work.h, outer);
            let x = match slot {
                PoseSlot::TopLeft | PoseSlot::BottomLeft => work.x,
                _ => work.x + work.w - w,
            };
            let y = match slot {
                PoseSlot::TopLeft | PoseSlot::TopRight => work.y,
                _ => work.y + work.h - h,
            };
            Some(Rect { x, y, w, h })
        },
    }
}

/// The rectangle of a slot on an output (see [`spec_pose_rect`]).
pub fn pose_rect(geo: Rect, ins: Insets, slot: PoseSlot, default_size: Option<(i32, i32)>) -> (r: Option<Rect>)
    requires
        pose_area_fits(geo, ins),
        spec_pose_work_area(geo, ins) matches Some(work) ==> fits(work.x + work.w) && fits(work.y + work.h) && (
        slot == PoseSlot::Middle ==> middle_fits(work, default_size)),
    ensures
        r == spec_pose_rect(geo, ins, slot, default_size),
{
    match pose_work_area(geo, ins) {
        None => None,
        Some(work) => slot_rect(work, slot, default_size),
    }
}

/// The Middle slot's rectangle on an output (see [`spec_middle_rect`]).
pub fn middle_pose_rect(geo: Rect, ins: Insets, default_size: Option<(i32, i32)>) -> (r: Option<Rect>)
    requires
        pose_area_fits(geo, ins),
        spec_pose_work_area(geo, ins) matches Some(work) ==> fits(work.x + work.w) && fits(work.y + work.h)
            && middle_fits(work, default_size),
    ensures
        r == spec_pose_rect(geo, ins, PoseSlot::Middle, default_size),
{
    pose_rect(geo, ins, PoseSlot::Middle, default_size)
}

/// The four corners tile the work area: the left and right columns are
/// separated by exactly the outer gap (when the width's parity allows).
pub proof fn lemma_corners_apart(work: Rect)
    requires
        work.w > 2 * POSE_OUTER_GAP,
        work.h > 2 * POSE_OUTER_GAP,
        fits(work.x + work.w),
        fits(work.y + work.h),
    ensures
        spec_slot_rect(work, PoseSlot::TopLeft, None)->0.x + spec_slot_rect(work, PoseSlot::TopLeft, None)->0.w
            + POSE_OUTER_GAP <= spec_slot_rect(work, PoseSlot::TopRight, None)->0.x,
        spec_slot_rect(work, PoseSlot::TopLeft, None)->0.y + spec_slot_rect(work, PoseSlot::TopLeft, None)->0.h
            + POSE_OUTER_GAP <= spec_slot_rect(work, PoseSlot::BottomLeft, None)->0.y,
{
}

/// The corners sit in the corners of the work area (the output less its
/// panels, inset by the outer gap): top corners start at its top edge,
/// bottom corners end at its bottom edge, left corners start at its left
/// edge, right corners end at its right edge; all four have one size, no
/// larger than the work area, and (once the area is wider and taller than
/// the gap) two corners side by side or one above the other fill it but for
/// the outer gap between them, to within a pixel of rounding.
pub proof fn lemma_corners_in_corners(geo: Rect, ins: Insets, slot: PoseSlot, d: Option<(i32, i32)>)
    requires
        pose_area_fits(geo, ins),
        spec_pose_work_area(geo, ins) matches Some(work) ==> fits(work.x + work.w) && fits(work.y + work.h),
        slot.spec_is_corner(),
    ensures
        ({
            let left = geo.x + ins.left + POSE_OUTER_GAP;
            let top = geo.y + ins.top + POSE_OUTER_GAP;
            let right = geo.x + geo.w - ins.right - POSE_OUTER_GAP;
            let bottom = geo.y + geo.h - ins.bottom - POSE_OUTER_GAP;
            &&& spec_pose_rect(geo, ins, slot, d) is Some <==> (left < right && top < bottom)
            &&& spec_pose_rect(geo, ins, slot, d) matches Some(r) ==> {
                &&& 0 < r.w <= right - left
                &&& 0 < r.h <= bottom - top
                &&& (slot == PoseSlot::TopLeft || slot == PoseSlot::TopRight) ==> r.y == top
                &&& (slot == PoseSlot::BottomLeft || slot == PoseSlot::BottomRight) ==> r.y + r.h == bottom
                &&& (slot == PoseSlot::TopLeft || slot == PoseSlot::BottomLeft) ==> r.x == left
                &&& (slot == PoseSlot::TopRight || slot == PoseSlot::BottomRight) ==> r.x + r.w == right
                &&& spec_pose_rect(geo, ins, PoseSlot::TopLeft, d) matches Some(tl) && tl.w == r.w && tl.h == r.h
                &&& right - left >= POSE_OUTER_GAP + 2 ==> right - left - 1 <= 2 * r.w + POSE_OUTER_GAP <= right - left
                &&& bottom - top >= POSE_OUTER_GAP + 2 ==> bottom - top - 1 <= 2 * r.h + POSE_OUTER_GAP <= bottom - top
            }
        }),
{
    match spec_pose_work_area(geo, ins) {
        None => {},
        Some(work) => {
            let (qw, qh) = spec_quarter_size(work.w, work.h, POSE_OUTER_GAP);
            assert(1 <= qw <= work.w) by {
                if work.w - 40 >= 0 {
                    assert(div_trunc(work.w - 40, 2) == (work.w - 40) / 2);
                } else {
                    assert(div_trunc(work.w - 40, 2) <= 0);
                }
            }
            assert(1 <= qh <= work.h) by {
                if work.h - 40 >= 0 {
                    assert(div_trunc(work.h - 40, 2) == (work.h - 40) / 2);
                } else {
                    assert(div_trunc(work.h - 40, 2) <= 0);
                }
            }
        },
    }
}

} // verus!
