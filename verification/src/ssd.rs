//! Server-side decorations: the titlebar above a window, its three control
//! buttons, and which corners are drawn rounded.

use vstd::prelude::*;

use crate::geometry::Rect;
use crate::snap::{fits, SnapZone};

verus! {

/// Titlebar height in logical pixels; the bar sits above the window.
pub const BAR_HEIGHT: i32 = 34;

/// Width of one control button.
pub const BTN_W: i32 = 46;

/// A titlebar control button, right to left: close, maximize, minimize.
#[derive(Clone, Copy, Debug, PartialEq, Eq, Structural)]
pub enum SsdButton {
    Close,
    Maximize,
    Minimize,
}

/// Which corners of a window are drawn rounded.
#[derive(Clone, Copy, Debug, PartialEq, Eq, Structural)]
pub struct RoundedCorners {
    pub tl: bool,
    pub tr: bool,
    pub bl: bool,
    pub br: bool,
}

impl RoundedCorners {
    /// Every corner rounded.
    pub fn all() -> (r: Self)
        ensures
            r == (RoundedCorners { tl: true, tr: true, bl: true, br: true }),
    {
        RoundedCorners { tl: true, tr: true, bl: true, br: true }
    }

    /// No corner rounded.
    pub fn none() -> (r: Self)
        ensures
            r == (RoundedCorners { tl: false, tr: false, bl: false, br: false }),
    {
        RoundedCorners { tl: false, tr: false, bl: false, br: false }
    }

    /// Snapped windows sit inside gaps on every side, so all four corners
    /// float free and are rounded, whatever the zone.
    pub fn for_snap(_zone: SnapZone) -> (r: Self)
        ensures
            r == (RoundedCorners { tl: true, tr: true, bl: true, br: true }),
    {
        Self::all()
    }
}

/// Titlebar height.
pub fn bar_height() -> (r: i32)
    ensures
        r == BAR_HEIGHT,
{
    BAR_HEIGHT
}

/// The titlebar of a window: as wide as the window, directly above it.
pub open spec fn spec_titlebar_rect(win: Rect) -> Rect {
    Rect { x: win.x, y: (win.y - BAR_HEIGHT) as i32, w: win.w, h: BAR_HEIGHT }
}

/// The titlebar of a window (see [`spec_titlebar_rect`]).
pub fn titlebar_rect(win: Rect) -> (r: Rect)
    requires
        fits(win.y - BAR_HEIGHT),
    ensures
        r == spec_titlebar_rect(win),
{
    Rect { x: win.x, y: win.y - BAR_HEIGHT, w: win.w, h: BAR_HEIGHT }
}

/// The `idx`-th button from the right end of the titlebar.
pub open spec fn spec_button_rect(win: Rect, idx: int) -> Rect {
    Rect { x: (win.x + win.w - BTN_W * (idx + 1)) as i32, y: (win.y - BAR_HEIGHT) as i32, w: BTN_W, h: BAR_HEIGHT }
}

/// The decorations of `win` can be computed in `i32`.
pub open spec fn decor_fits(win: Rect) -> bool {
    &&& fits(win.y - BAR_HEIGHT)
    &&& fits(win.x + win.w)
    &&& fits(win.x + win.w - 3 * BTN_W)
}

/// The close, maximize and minimize buttons, right to left along the titlebar.
pub fn button_rects(win: Rect) -> (r: (Rect, Rect, Rect))
    requires
        decor_fits(win),
    ensures
        r == (spec_button_rect(win, 0), spec_button_rect(win, 1), spec_button_rect(win, 2)),
{
    let bar = titlebar_rect(win);
    let right = bar.x + bar.w;
    (
        Rect { x: right - BTN_W, y: bar.y, w: BTN_W, h: BAR_HEIGHT },
        Rect { x: right - BTN_W * 2, y: bar.y, w: BTN_W, h: BAR_HEIGHT },
        Rect { x: right - BTN_W * 3, y: bar.y, w: BTN_W, h: BAR_HEIGHT },
    )
}

/// What a point on a decorated window hits: `Err` off the titlebar, `Ok`
/// with the button under it, or `Ok(None)` on the bar between buttons.
pub open spec fn spec_hit_test(px: i32, py: i32, win: Rect) -> Result<Option<SsdButton>, ()> {
    if !spec_titlebar_rect(win).spec_contains(px, py) {
        Err(())
    } else if spec_button_rect(win, 0).spec_contains(px, py) {
        Ok(Some(SsdButton::Close))
    } else if spec_button_rect(win, 1).spec_contains(px, py) {
        Ok(Some(SsdButton::Maximize))
    } else if spec_button_rect(win, 2).spec_contains(px, py) {
        Ok(Some(SsdButton::Minimize))
    } else {
        Ok(None)
    }
}

/// What a point on a decorated window hits (see [`spec_hit_test`]).
pub fn hit_test(px: i32, py: i32, win: Rect) -> (r: Result<Option<SsdButton>, ()>)
    requires
        decor_fits(win),
    ensures
        r == spec_hit_test(px, py, win),
{
    let bar = titlebar_rect(win);
    if !bar.contains(px, py) {
        return Err(());
    }
    let (close, maximize, minimize) = button_rects(win);
    if close.contains(px, py) {
        Ok(Some(SsdButton::Close))
    } else if maximize.contains(px, py) {
        Ok(Some(SsdButton::Maximize))
    } else if minimize.contains(px, py) {
        Ok(Some(SsdButton::Minimize))
    } else {
        Ok(None)
    }
}

/// A point on a button is on the titlebar, and no point is on two buttons.
pub proof fn lemma_buttons_on_bar(px: i32, py: i32, win: Rect)
    requires
        decor_fits(win),
        win.w >= 3 * BTN_W,
    ensures
        spec_hit_test(px, py, win) matches Ok(Some(b)) ==> spec_button_rect(
            win,
            match b {
                SsdButton::Close => 0,
                SsdButton::Maximize => 1,
                SsdButton::Minimize => 2,
            },
        ).spec_contains(px, py),
        forall|i: int, j: int|
            0 <= i < j <= 2 ==> !(spec_button_rect(win, i).spec_contains(px, py) && spec_button_rect(
                win,
                j,
            ).spec_contains(px, py)),
{
}

/// Corner rounding of a window: none when maximized; a snapped window's
/// zone decides; everything else rounds all four corners.
pub fn window_corners(is_maximized: bool, snap_zone: Option<SnapZone>) -> (r: RoundedCorners)
    ensures
        r == if is_maximized {
            RoundedCorners { tl: false, tr: false, bl: false, br: false }
        } else {
            RoundedCorners { tl: true, tr: true, bl: true, br: true }
        },
{
    if is_maximized {
        RoundedCorners::none()
    } else {
        match snap_zone {
            Some(zone) => RoundedCorners::for_snap(zone),
            None => RoundedCorners::all(),
        }
    }
}

/// What a click on a window's decoration does, and to which window.
#[derive(Clone, Copy, Debug, PartialEq, Eq, Structural)]
pub enum SsdClickAction {
    Close(u64),
    ToggleMaximize(u64),
    Minimize(u64),
    /// The titlebar outside the buttons: start moving the window.
    Move(u64),
}

/// A mapped window, as the decoration handlers see it: its geometry,
/// whether it is decorated by the compositor, fullscreen (no decoration
/// shown), and on its output's active workspace.
#[derive(Clone, Copy, Debug, PartialEq, Eq, Structural)]
pub struct DecoratedWindow {
    pub surface: u64,
    pub rect: Rect,
    pub decorated: bool,
    pub fullscreen: bool,
    pub on_active_workspace: bool,
}

/// The click action on `surface` for a button, or for the bare titlebar.
pub open spec fn click_of(surface: u64, b: Option<SsdButton>) -> SsdClickAction {
    match b {
        Some(SsdButton::Close) => SsdClickAction::Close(surface),
        Some(SsdButton::Maximize) => SsdClickAction::ToggleMaximize(surface),
        Some(SsdButton::Minimize) => SsdClickAction::Minimize(surface),
        None => SsdClickAction::Move(surface),
    }
}

/// Whether a click can land on the decoration of `w`.
pub open spec fn clickable(w: DecoratedWindow) -> bool {
    w.decorated && !w.fullscreen && w.on_active_workspace
}

/// Whether `w` takes a click at the point.
pub open spec fn takes_click(w: DecoratedWindow, px: i32, py: i32) -> bool {
    clickable(w) && spec_hit_test(px, py, w.rect) is Ok
}

/// The first of the first `n` windows (front to back) that takes the click.
pub open spec fn first_click_taker(ws: Seq<DecoratedWindow>, px: i32, py: i32, n: int) -> Option<int>
    decreases n,
{
    if n <= 0 {
        None
    } else {
        match first_click_taker(ws, px, py, n - 1) {
            Some(i) => Some(i),
            None => if takes_click(ws[n - 1], px, py) {
                Some(n - 1)
            } else {
                None
            },
        }
    }
}

/// Whether every window's decoration geometry fits the coordinate range.
pub open spec fn all_decor_fit(ws: Seq<DecoratedWindow>) -> bool {
    forall|i: int| 0 <= i < ws.len() ==> decor_fits(#[trigger] ws[i].rect)
}

proof fn lemma_first_click_taker_stays(ws: Seq<DecoratedWindow>, px: i32, py: i32, n: int, m: int)
    requires
        0 <= n <= m,
        first_click_taker(ws, px, py, n) is Some,
    ensures
        first_click_taker(ws, px, py, m) == first_click_taker(ws, px, py, n),
    decreases m - n,
{
    if m > n {
        lemma_first_click_taker_stays(ws, px, py, n, m - 1);
    }
}

/// A click at the point, the windows given front to back: the first
/// decorated, non-fullscreen window on an active workspace whose titlebar
/// holds the point takes it, with the action of the button under the point
/// (moving the window on the bare titlebar); none when no window does.
pub fn ssd_handle_click(ws: &Vec<DecoratedWindow>, px: i32, py: i32) -> (r: Option<SsdClickAction>)
    requires
        all_decor_fit(ws@),
    ensures
        match first_click_taker(ws@, px, py, ws@.len() as int) {
            Some(i) => r == Some(click_of(ws@[i].surface, spec_hit_test(px, py, ws@[i].rect)->Ok_0)),
            None => r is None,
        },
{
    let mut i: usize = 0;
    while i < ws.len()
        invariant
            i <= ws@.len(),
            all_decor_fit(ws@),
            first_click_taker(ws@, px, py, i as int) is None,
        decreases ws@.len() - i,
    {
        let w = ws[i];
        if w.decorated && !w.fullscreen && w.on_active_workspace {
            assert(decor_fits(ws@[i as int].rect));
            match hit_test(px, py, w.rect) {
                Ok(b) => {
                    proof {
                        lemma_first_click_taker_stays(ws@, px, py, i + 1, ws@.len() as int);
                    }
                    let action = match b {
                        Some(SsdButton::Close) => SsdClickAction::Close(w.surface),
                        Some(SsdButton::Maximize) => SsdClickAction::ToggleMaximize(w.surface),
                        Some(SsdButton::Minimize) => SsdClickAction::Minimize(w.surface),
                        None => SsdClickAction::Move(w.surface),
                    };
                    return Some(action);
                },
                Err(()) => {},
            }
        }
        i += 1;
    }
    None
}

/// The button a decorated window shows hovered with the pointer at the
/// point: the one under it, none off the buttons or off the titlebar.
pub open spec fn spec_hover(px: i32, py: i32, win: Rect) -> Option<SsdButton> {
    match spec_hit_test(px, py, win) {
        Ok(b) => b,
        Err(()) => None,
    }
}

/// A decorated window's hover state: its geometry, whether it is skipped
/// (unmapped or fullscreen), and the button shown hovered.
#[derive(Clone, Copy, Debug, PartialEq, Eq, Structural)]
pub struct HoverState {
    pub rect: Rect,
    pub skipped: bool,
    pub hovered: Option<SsdButton>,
}

/// Move the pointer to the point: every decorated window that is not
/// skipped shows the button under the pointer hovered (see
/// [`spec_hover`]); skipped ones keep theirs. Returns whether any hover
/// state changed, that is whether a repaint is needed.
pub fn ssd_update_hover(states: &mut Vec<HoverState>, px: i32, py: i32) -> (changed: bool)
    requires
        forall|i: int| 0 <= i < old(states)@.len() ==> decor_fits(#[trigger] old(states)@[i].rect),
    ensures
        final(states)@.len() == old(states)@.len(),
        forall|i: int|
            0 <= i < old(states)@.len() ==> #[trigger] final(states)@[i] == (HoverState {
                hovered: if old(states)@[i].skipped {
                    old(states)@[i].hovered
                } else {
                    spec_hover(px, py, old(states)@[i].rect)
                },
                ..old(states)@[i]
            }),
        changed == exists|i: int| 0 <= i < old(states)@.len() && #[trigger] final(states)@[i] != old(states)@[i],
{
    let mut changed = false;
    let mut i: usize = 0;
    while i < states.len()
        invariant
            i <= states@.len(),
            states@.len() == old(states)@.len(),
            forall|j: int| 0 <= j < old(states)@.len() ==> decor_fits(#[trigger] old(states)@[j].rect),
            forall|j: int|
                0 <= j < old(states)@.len() ==> #[trigger] states@[j] == if j < i {
                    HoverState {
                        hovered: if old(states)@[j].skipped {
                            old(states)@[j].hovered
                        } else {
                            spec_hover(px, py, old(states)@[j].rect)
                        },
                        ..old(states)@[j]
                    }
                } else {
                    old(states)@[j]
                },
            changed == exists|j: int| 0 <= j < i && #[trigger] states@[j] != old(states)@[j],
        decreases states@.len() - i,
    {
        let st = states[i];
        let ghost prev = states@;
        let ghost was_changed = changed;
        assert(decor_fits(old(states)@[i as int].rect));
        if !st.skipped {
            let new_hover = match hit_test(px, py, st.rect) {
                Ok(b) => b,
                Err(()) => None,
            };
            if new_hover != st.hovered {
                states.set(i, HoverState { hovered: new_hover, ..st });
                changed = true;
            }
        }
        proof {
            if was_changed {
                let w = choose|j: int| 0 <= j < i && #[trigger] prev[j] != old(states)@[j];
                assert(states@[w] == prev[w]);
            } else if changed {
                assert(states@[i as int] != old(states)@[i as int]);
            } else {
                assert forall|j: int| 0 <= j < i + 1 implies #[trigger] states@[j] == old(states)@[j] by {
                    if j < i {
                        assert(!(states@[j] != old(states)@[j]));
                    }
                }
            }
        }
        i += 1;
    }
    changed
}

/// How a hovered button is highlighted.
#[derive(Clone, Copy, Debug, PartialEq, Eq, Structural)]
pub enum HoverHighlight {
    /// The close button: drawn in the header's shape, in red, with its
    /// top-right corner rounded when `rounded`.
    Close { rect: Rect, rounded: bool },
    /// Maximize or minimize: a faint box over the button.
    Plain { rect: Rect },
}

/// What the decoration of a window draws, before scaling: the header over
/// the titlebar (its top corners rounded or not), the hover highlight, and
/// whether the close icon is drawn white instead of grey.
#[derive(Clone, Copy, Debug, PartialEq, Eq, Structural)]
pub struct DecorationPlan {
    pub header: Rect,
    pub header_rounded: bool,
    pub highlight: Option<HoverHighlight>,
    pub close_icon_white: bool,
}

/// The position from the right of a button (close 0, maximize 1, minimize 2).
pub open spec fn button_index(b: SsdButton) -> int {
    match b {
        SsdButton::Close => 0,
        SsdButton::Maximize => 1,
        SsdButton::Minimize => 2,
    }
}

/// Plan the decoration of `win` with `hovered` under the pointer and the
/// window's rounded `corners`: the header covers the titlebar and is
/// rounded when either top corner is; a hovered close button is
/// highlighted in the header's shape (rounded when the top-right corner
/// is) and turns its icon white; a hovered maximize or minimize button
/// gets a plain box; nothing is highlighted when no button is hovered.
pub fn decoration_plan(win: Rect, hovered: Option<SsdButton>, corners: RoundedCorners) -> (r: DecorationPlan)
    requires
        decor_fits(win),
    ensures
        r.header == spec_titlebar_rect(win),
        r.header_rounded == (corners.tl || corners.tr),
        r.highlight == match hovered {
            None => None,
            Some(SsdButton::Close) => Some(HoverHighlight::Close { rect: spec_button_rect(win, 0), rounded: corners.tr }),
            Some(b) => Some(HoverHighlight::Plain { rect: spec_button_rect(win, button_index(b)) }),
        },
        r.close_icon_white == (hovered == Some(SsdButton::Close)),
{
    let header = titlebar_rect(win);
    let (close, maximize, minimize) = button_rects(win);
    let highlight = match hovered {
        None => None,
        Some(SsdButton::Close) => Some(HoverHighlight::Close { rect: close, rounded: corners.tr }),
        Some(SsdButton::Maximize) => Some(HoverHighlight::Plain { rect: maximize }),
        Some(SsdButton::Minimize) => Some(HoverHighlight::Plain { rect: minimize }),
    };
    let close_icon_white = match hovered {
        Some(SsdButton::Close) => true,
        _ => false,
    };
    DecorationPlan { header, header_rounded: corners.tl || corners.tr, highlight, close_icon_white }
}

} // verus!
