use lntrn_compositor::geometry::Rect;
use lntrn_compositor::pose::{
    corner_shrink_down, corner_shrink_up, half_left_next, ladder_size_down, ladder_size_up, LadderStep, half_right_next, is_corner_posed,
    middle_pose_rect, move_corner, pose_rect, quarter_size, swap_half_side, uncorner_to_half,
    untiny_to_middle, CornerDir, PoseSlot,
};
use lntrn_compositor::snap::{floating_snap_rect, snap_zone_geometry, top_edge_only, zone_from_edges, Insets, SnapZone};
use lntrn_compositor::ssd::{
    bar_height, button_rects, decoration_plan, hit_test, HoverHighlight, ssd_handle_click, ssd_update_hover, titlebar_rect, DecoratedWindow,
    HoverState, RoundedCorners, SsdButton, SsdClickAction,
};

const NO_INSETS: Insets = Insets { top: 0, bottom: 0, left: 0, right: 0 };

#[test]
fn snap_zone_from_edges() {
    assert_eq!(zone_from_edges(true, false, true, false), Some(SnapZone::TopLeft));
    assert_eq!(zone_from_edges(false, true, false, true), Some(SnapZone::BottomRight));
    assert_eq!(zone_from_edges(true, false, false, false), Some(SnapZone::Left));
    assert_eq!(zone_from_edges(false, false, true, false), None);
    assert_eq!(zone_from_edges(false, false, false, true), None);
    assert!(top_edge_only(false, false, true));
    assert!(!top_edge_only(true, false, true));
}

#[test]
fn snap_zone_rects() {
    let geo = Rect::new(0, 0, 1920, 1080);
    let ins = Insets { top: 30, bottom: 0, left: 0, right: 0 };
    assert_eq!(snap_zone_geometry(geo, ins, 8, 8, SnapZone::Full), Rect::new(8, 38, 1904, 1034));
    assert_eq!(snap_zone_geometry(geo, ins, 8, 8, SnapZone::Left), Rect::new(8, 38, 948, 1034));
    assert_eq!(snap_zone_geometry(geo, ins, 8, 8, SnapZone::Right), Rect::new(964, 38, 948, 1034));
    assert_eq!(snap_zone_geometry(geo, ins, 8, 8, SnapZone::BottomRight), Rect::new(964, 559, 948, 513));
}

#[test]
fn floating_snap_rects() {
    let region = Rect::new(0, 0, 1920, 1080);
    assert_eq!(floating_snap_rect(region, SnapZone::Left), Rect::new(40, 40, 900, 1000));
    assert_eq!(floating_snap_rect(region, SnapZone::Right), Rect::new(980, 40, 900, 1000));
    assert_eq!(floating_snap_rect(region, SnapZone::BottomLeft), Rect::new(40, 560, 900, 480));
    assert_eq!(floating_snap_rect(region, SnapZone::Full), Rect::new(40, 40, 1840, 1000));
}

#[test]
fn decorations_geometry() {
    let win = Rect::new(100, 100, 800, 600);
    assert_eq!(bar_height(), 34);
    assert_eq!(titlebar_rect(win), Rect::new(100, 66, 800, 34));
    let (c, m, n) = button_rects(win);
    assert_eq!(c, Rect::new(854, 66, 46, 34));
    assert_eq!(m, Rect::new(808, 66, 46, 34));
    assert_eq!(n, Rect::new(762, 66, 46, 34));
    assert_eq!(hit_test(860, 70, win), Ok(Some(SsdButton::Close)));
    assert_eq!(hit_test(810, 70, win), Ok(Some(SsdButton::Maximize)));
    assert_eq!(hit_test(800, 70, win), Ok(Some(SsdButton::Minimize)));
    assert_eq!(hit_test(500, 70, win), Ok(None));
    assert_eq!(hit_test(500, 500, win), Err(()));
    assert_eq!(hit_test(900, 70, win), Err(()));
}

#[test]
fn rounded_corner_sets() {
    let a = RoundedCorners::all();
    assert!(a.tl && a.tr && a.bl && a.br);
    let n = RoundedCorners::none();
    assert!(!n.tl && !n.tr && !n.bl && !n.br);
    assert_eq!(RoundedCorners::for_snap(SnapZone::Left), a);
}

#[test]
fn pose_slot_kinds() {
    assert!(PoseSlot::TopLeft.is_corner());
    assert!(!PoseSlot::Tiny.is_corner());
    assert!(PoseSlot::Right.is_half());
    assert!(!PoseSlot::Middle.is_half());
    assert!(is_corner_posed(Some(PoseSlot::BottomRight)));
    assert!(!is_corner_posed(None));
}

#[test]
fn pose_transitions() {
    assert_eq!(half_left_next(None), Some(PoseSlot::Left));
    assert_eq!(half_left_next(Some(PoseSlot::Right)), Some(PoseSlot::Middle));
    assert_eq!(half_left_next(Some(PoseSlot::Middle)), Some(PoseSlot::Left));
    assert_eq!(half_left_next(Some(PoseSlot::Left)), None);
    assert_eq!(half_left_next(Some(PoseSlot::TopRight)), Some(PoseSlot::Middle));
    assert_eq!(half_right_next(Some(PoseSlot::Left)), Some(PoseSlot::Middle));
    assert_eq!(half_right_next(Some(PoseSlot::Tiny)), Some(PoseSlot::Middle));
    assert_eq!(corner_shrink_down(Some(PoseSlot::Left)), Some(PoseSlot::BottomLeft));
    assert_eq!(corner_shrink_up(Some(PoseSlot::Right)), Some(PoseSlot::TopRight));
    assert_eq!(corner_shrink_up(Some(PoseSlot::Middle)), None);
    assert_eq!(uncorner_to_half(Some(PoseSlot::BottomRight)), Some(PoseSlot::Right));
    assert_eq!(untiny_to_middle(Some(PoseSlot::Tiny)), Some(PoseSlot::Middle));
    assert_eq!(untiny_to_middle(Some(PoseSlot::Left)), None);
    assert_eq!(swap_half_side(Some(PoseSlot::Left), CornerDir::Right), Some(PoseSlot::Right));
    assert_eq!(swap_half_side(Some(PoseSlot::Left), CornerDir::Left), None);
    assert_eq!(move_corner(Some(PoseSlot::TopRight), CornerDir::Left), Some(PoseSlot::TopLeft));
    assert_eq!(move_corner(Some(PoseSlot::TopLeft), CornerDir::Left), None);
    assert_eq!(move_corner(Some(PoseSlot::Left), CornerDir::Down), None);
    assert_eq!(move_corner(Some(PoseSlot::TopLeft), CornerDir::Down), Some(PoseSlot::BottomLeft));
}

#[test]
fn pose_rects() {
    let geo = Rect::new(0, 0, 1920, 1080);
    assert_eq!(quarter_size(1840, 1000, 40), (900, 480));
    assert_eq!(quarter_size(10, 10, 40), (1, 1));
    assert_eq!(pose_rect(geo, NO_INSETS, PoseSlot::Left, None), Some(Rect::new(40, 40, 910, 1000)));
    assert_eq!(pose_rect(geo, NO_INSETS, PoseSlot::Right, None), Some(Rect::new(970, 40, 910, 1000)));
    assert_eq!(pose_rect(geo, NO_INSETS, PoseSlot::Middle, None), Some(Rect::new(210, 40, 1500, 1000)));
    assert_eq!(middle_pose_rect(geo, NO_INSETS, Some((800, 600))), Some(Rect::new(560, 240, 800, 600)));
    assert_eq!(pose_rect(geo, NO_INSETS, PoseSlot::TopLeft, None), Some(Rect::new(40, 40, 900, 480)));
    assert_eq!(pose_rect(geo, NO_INSETS, PoseSlot::BottomRight, None), Some(Rect::new(980, 560, 900, 480)));
    assert_eq!(pose_rect(geo, NO_INSETS, PoseSlot::Tiny, None), Some(Rect::new(510, 300, 900, 480)));
    assert_eq!(pose_rect(Rect::new(0, 0, 80, 500), NO_INSETS, PoseSlot::Left, None), None);
}

fn decorated(surface: u64, rect: Rect) -> DecoratedWindow {
    DecoratedWindow { surface, rect, decorated: true, fullscreen: false, on_active_workspace: true }
}

#[test]
fn click_goes_to_frontmost_titlebar() {
    let front = decorated(1, Rect::new(100, 100, 400, 300));
    let back = decorated(2, Rect::new(0, 50, 800, 600));
    let ws = vec![front, back];
    assert_eq!(ssd_handle_click(&ws, 480, 80), Some(SsdClickAction::Close(1)));
    assert_eq!(ssd_handle_click(&ws, 430, 80), Some(SsdClickAction::ToggleMaximize(1)));
    assert_eq!(ssd_handle_click(&ws, 380, 80), Some(SsdClickAction::Minimize(1)));
    assert_eq!(ssd_handle_click(&ws, 200, 80), Some(SsdClickAction::Move(1)));
    assert_eq!(ssd_handle_click(&ws, 50, 30), Some(SsdClickAction::Move(2)));
    assert_eq!(ssd_handle_click(&ws, 600, 500), None);
}

#[test]
fn click_skips_hidden_decorations() {
    let mut front = decorated(1, Rect::new(100, 100, 400, 300));
    front.fullscreen = true;
    let mut other = decorated(3, Rect::new(100, 100, 400, 300));
    other.on_active_workspace = false;
    let mut plain = decorated(4, Rect::new(100, 100, 400, 300));
    plain.decorated = false;
    let back = decorated(2, Rect::new(100, 100, 400, 300));
    assert_eq!(ssd_handle_click(&vec![front, other, plain, back], 480, 80), Some(SsdClickAction::Close(2)));
    assert_eq!(ssd_handle_click(&vec![front, other, plain], 480, 80), None);
}

#[test]
fn hover_tracks_button_under_pointer() {
    let win = Rect::new(100, 100, 400, 300);
    let mut states = vec![
        HoverState { rect: win, skipped: false, hovered: None },
        HoverState { rect: win, skipped: true, hovered: Some(SsdButton::Minimize) },
    ];
    assert!(ssd_update_hover(&mut states, 480, 80));
    assert_eq!(states[0].hovered, Some(SsdButton::Close));
    assert_eq!(states[1].hovered, Some(SsdButton::Minimize));
    assert!(!ssd_update_hover(&mut states, 470, 90));
    assert!(ssd_update_hover(&mut states, 10, 10));
    assert_eq!(states[0].hovered, None);
}

#[test]
fn ladder_up_rungs() {
    assert_eq!(ladder_size_up(true, true, Some(PoseSlot::Left), false, false), vec![LadderStep::RestoreMinimized]);
    assert_eq!(ladder_size_up(false, false, None, false, false), vec![]);
    assert_eq!(ladder_size_up(false, true, Some(PoseSlot::BottomRight), false, false), vec![LadderStep::Pose(PoseSlot::Right), LadderStep::SoloTile]);
    assert_eq!(ladder_size_up(false, true, Some(PoseSlot::Tiny), false, false), vec![LadderStep::Pose(PoseSlot::Middle), LadderStep::SoloTile]);
    assert_eq!(ladder_size_up(false, true, Some(PoseSlot::Left), false, false), vec![LadderStep::Pose(PoseSlot::TopLeft), LadderStep::SoloTile]);
    assert_eq!(ladder_size_up(false, true, None, false, true), vec![LadderStep::Maximize]);
    assert_eq!(ladder_size_up(false, true, None, true, false), vec![]);
}

#[test]
fn ladder_down_rungs() {
    assert_eq!(ladder_size_down(false, Some(PoseSlot::Tiny), false, false), vec![]);
    assert_eq!(ladder_size_down(true, None, true, true), vec![LadderStep::Unmaximize]);
    assert_eq!(ladder_size_down(true, None, false, true), vec![LadderStep::Unsolo]);
    assert_eq!(ladder_size_down(true, Some(PoseSlot::Right), false, false), vec![LadderStep::Pose(PoseSlot::BottomRight), LadderStep::Pose(PoseSlot::Tiny)]);
    assert_eq!(ladder_size_down(true, Some(PoseSlot::TopLeft), false, false), vec![LadderStep::Pose(PoseSlot::Left)]);
    assert_eq!(ladder_size_down(true, Some(PoseSlot::Tiny), false, false), vec![LadderStep::Minimize]);
    assert_eq!(ladder_size_down(true, Some(PoseSlot::Middle), false, false), vec![LadderStep::Pose(PoseSlot::Tiny)]);
    assert_eq!(ladder_size_down(true, None, false, false), vec![LadderStep::Pose(PoseSlot::Tiny)]);
}

#[test]
fn decoration_plan_highlights_the_hovered_button() {
    let win = Rect::new(100, 200, 800, 600);
    let corners = RoundedCorners { tl: false, tr: true, bl: true, br: true };
    let plain = decoration_plan(win, None, corners);
    assert_eq!(plain.header, Rect::new(100, 166, 800, 34));
    assert!(plain.header_rounded);
    assert_eq!(plain.highlight, None);
    assert!(!plain.close_icon_white);
    let close = decoration_plan(win, Some(SsdButton::Close), corners);
    assert_eq!(close.highlight, Some(HoverHighlight::Close { rect: Rect::new(854, 166, 46, 34), rounded: true }));
    assert!(close.close_icon_white);
    let min = decoration_plan(win, Some(SsdButton::Minimize), RoundedCorners::none());
    assert_eq!(min.highlight, Some(HoverHighlight::Plain { rect: Rect::new(762, 166, 46, 34) }));
    assert!(!min.close_icon_white);
    assert!(!min.header_rounded);
}
