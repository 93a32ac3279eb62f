use lntrn_compositor::cards::{hit_test, hit_test_close, CardRect};
use lntrn_compositor::geometry::Rect;
use lntrn_compositor::outputs::{fullscreen_on_output, output_at_point};
use lntrn_compositor::pointer::{surface_under, LayerInfo, LayerKind, Probe, WindowCandidate, WorkspaceRef};
use lntrn_compositor::pose::PoseSlot;
use lntrn_compositor::query::{parse_query_request, peer_allowed};
use lntrn_compositor::snap::{Insets, SnapZone};
use lntrn_compositor::states::{
    maximize_with_restore, pose_half_left, pose_half_right, restore_minimized, solo_tile, swap_windows,
    MinimizedEntry, PosedEntry, RestorePlan, SnappedEntry, WindowStates,
};
use lntrn_compositor::switcher::SwitcherState;
use lntrn_compositor::windows::StateEntry;

fn card(entry_index: usize, x: i32, y: i32, w: i32, h: i32, selected: bool) -> CardRect {
    CardRect { entry_index, x, y, w, h, selected }
}

#[test]
fn hit_test_finds_selected_card() {
    let cards = vec![card(0, 172, 400, 432, 281, false), card(1, 660, 345, 600, 390, true), card(2, 1316, 400, 432, 281, false)];
    assert_eq!(hit_test(&cards, 960, 540), Some(1));
    assert_eq!(hit_test(&cards, 960, 0), None);
}

#[test]
fn close_button_only_on_selected() {
    let cards = vec![card(0, 660, 345, 600, 390, true), card(1, 1316, 400, 432, 281, false), card(2, 1804, 400, 432, 281, false)];
    assert_eq!(hit_test_close(&cards, 1237, 368), Some(0));
    assert_eq!(hit_test_close(&cards, 1532, 540), None);
}

fn empty_states() -> WindowStates {
    WindowStates { maximized: vec![], solo_tiled: vec![], snapped: vec![], posed: vec![] }
}

const OUT: Rect = Rect { x: 0, y: 0, w: 1920, h: 1080 };
const NO_INSETS: Insets = Insets { top: 0, bottom: 0, left: 0, right: 0 };

#[test]
fn maximize_records_restore_and_drops_pose() {
    let mut st = empty_states();
    st.posed.push(PosedEntry { surface: 7, slot: PoseSlot::Left });
    let middle = Rect::new(210, 40, 1500, 1000);
    let current = Rect::new(40, 40, 900, 1000);
    assert!(maximize_with_restore(&mut st, 7, None, Some(middle), None, current, OUT, 1344, 756));
    assert_eq!(st.maximized, vec![StateEntry { surface: 7, restore: middle, target: OUT }]);
    assert!(st.posed.is_empty());
    assert!(!maximize_with_restore(&mut st, 7, None, None, None, current, OUT, 1344, 756));
    assert_eq!(st.maximized.len(), 1);
}

#[test]
fn maximize_repairs_tiny_restore() {
    let mut st = empty_states();
    assert!(maximize_with_restore(&mut st, 1, None, None, None, Rect::new(10, 10, 50, 50), OUT, 1344, 756));
    assert_eq!(st.maximized[0].restore, Rect::new(288, 162, 1344, 756));
}

#[test]
fn solo_tile_refusals_and_entry() {
    let mut st = empty_states();
    st.posed.push(PosedEntry { surface: 3, slot: PoseSlot::Middle });
    let middle = Rect::new(210, 40, 1500, 1000);
    assert!(solo_tile(&mut st, 3, OUT, NO_INSETS, Some(middle), None, Rect::new(0, 0, 100, 100)));
    assert_eq!(st.solo_tiled, vec![StateEntry { surface: 3, restore: middle, target: Rect::new(40, 40, 1840, 1000) }]);
    assert!(st.posed.is_empty());
    assert!(!solo_tile(&mut st, 3, OUT, NO_INSETS, None, None, Rect::new(0, 0, 100, 100)));
    st.maximized.push(StateEntry { surface: 4, restore: OUT, target: OUT });
    assert!(!solo_tile(&mut st, 4, OUT, NO_INSETS, None, None, Rect::new(0, 0, 100, 100)));
}

#[test]
fn half_left_press_cycles_and_clears_states() {
    let mut st = empty_states();
    st.maximized.push(StateEntry { surface: 5, restore: OUT, target: OUT });
    st.snapped.push(SnappedEntry { surface: 5, zone: SnapZone::Left });
    assert!(pose_half_left(&mut st, 5, OUT, NO_INSETS, None).is_some());
    assert_eq!(st.posed, vec![PosedEntry { surface: 5, slot: PoseSlot::Left }]);
    assert!(st.maximized.is_empty());
    assert!(st.snapped.is_empty());
    assert_eq!(pose_half_left(&mut st, 5, OUT, NO_INSETS, None), None);
    assert!(pose_half_right(&mut st, 5, OUT, NO_INSETS, None).is_some());
    assert_eq!(st.posed, vec![PosedEntry { surface: 5, slot: PoseSlot::Middle }]);
}

#[test]
fn swap_trades_rects_and_clears_states() {
    let mut st = empty_states();
    st.maximized.push(StateEntry { surface: 1, restore: OUT, target: OUT });
    st.posed.push(PosedEntry { surface: 2, slot: PoseSlot::Right });
    let a = Rect::new(0, 0, 960, 1080);
    let b = Rect::new(960, 0, 960, 1080);
    let out = swap_windows(&mut st, 1, a, 2, b);
    assert_eq!(out.focused_target, b);
    assert_eq!(out.other_target, a);
    assert!(out.focused_was_maximized);
    assert!(!out.other_was_maximized);
    assert!(st.maximized.is_empty());
    assert!(st.posed.is_empty());
}

#[test]
fn restore_minimized_comes_back() {
    let mut minimized = vec![MinimizedEntry { surface: 1, x: 100, y: 200 }, MinimizedEntry { surface: 2, x: 5, y: 6 }];
    let maximized = vec![StateEntry { surface: 2, restore: OUT, target: OUT }];
    assert_eq!(restore_minimized(&mut minimized, &maximized, 1, Some(OUT)), Some(RestorePlan { x: 100, y: 200, maximized: false }));
    assert_eq!(restore_minimized(&mut minimized, &maximized, 2, Some(Rect::new(1920, 0, 100, 100))), Some(RestorePlan { x: 1920, y: 0, maximized: true }));
    assert!(minimized.is_empty());
    assert_eq!(restore_minimized(&mut minimized, &maximized, 2, Some(OUT)), None);
}

#[test]
fn surface_under_skips_hidden_windows_and_fullscreen_layers() {
    let outs = vec![OUT, Rect::new(1920, 0, 1920, 1080)];
    let layers = vec![LayerInfo { kind: LayerKind::Top, alive: true, on_output: true, rect: Rect::new(0, 0, 1920, 40) }];
    let windows = vec![
        WindowCandidate { surface: 1, workspace: Some(WorkspaceRef { output: 0, id: 1 }) },
        WindowCandidate { surface: 2, workspace: Some(WorkspaceRef { output: 0, id: 2 }) },
        WindowCandidate { surface: 3, workspace: None },
    ];
    let plan = surface_under(&outs, 10, 10, &layers, &vec![], &windows, &vec![1, 1]);
    assert_eq!(plan.output, Some(0));
    assert_eq!(plan.probes, vec![Probe::Layer(0), Probe::Windows]);
    assert_eq!(plan.windows, vec![3, 1]);
    let plan = surface_under(&outs, 10, 10, &layers, &vec![Some((0, 0))], &windows, &vec![2, 1]);
    assert_eq!(plan.probes, vec![Probe::Windows]);
    assert_eq!(plan.windows, vec![3, 2]);
    let plan = surface_under(&outs, 10, 10, &layers, &vec![Some((1920, 0)), None], &windows, &vec![1, 1]);
    assert_eq!(plan.probes, vec![Probe::Layer(0), Probe::Windows]);
}

#[test]
fn wide_coordinates_are_exact() {
    let outs = vec![Rect::new(i32::MIN, i32::MIN, i32::MAX, i32::MAX), Rect::new(i32::MAX - 10, i32::MAX - 10, 10, 10)];
    assert_eq!(output_at_point(&outs, i32::MAX as i64 + 1, i32::MAX as i64 + 1), Some(1));
    assert_eq!(output_at_point(&outs, i64::MIN, i64::MIN), Some(0));
    assert!(fullscreen_on_output(&outs, &vec![Some((i32::MAX - 5, i32::MAX - 5))], 1));
}

#[test]
fn hover_picks_only_after_travel() {
    let mut sw = SwitcherState::new();
    sw.start_visible(vec![10, 20, 30], vec!["a".into(), "b".into(), "c".into()], Some(10), vec![false, false, false]);
    let sel = sw.selected_index();
    let other = if sel == 0 { 1 } else { 0 };
    assert!(!sw.hover_select(Some(other), false));
    assert_eq!(sw.selected_index(), sel);
    assert!(!sw.hover_select(Some(sel), true));
    assert!(!sw.hover_select(None, true));
    assert!(sw.hover_select(Some(other), true));
    assert_eq!(sw.selected_index(), other);
}

#[test]
fn query_request_lines() {
    assert_eq!(parse_query_request("query:DP-1\n"), Some("DP-1".to_string()));
    assert_eq!(parse_query_request("  query:\n"), Some(String::new()));
    assert_eq!(parse_query_request("hello"), None);
    assert!(peer_allowed(Some(1000), 1000));
    assert!(!peer_allowed(Some(0), 1000));
    assert!(!peer_allowed(None, 1000));
}

#[test]
fn new_window_states_are_empty() {
    let st = lntrn_compositor::states::WindowStates::new();
    assert!(st.maximized.is_empty() && st.solo_tiled.is_empty() && st.snapped.is_empty() && st.posed.is_empty());
}
