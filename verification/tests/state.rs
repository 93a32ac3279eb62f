use lntrn_compositor::cards::{close_rect, hit_test, hit_test_close, CardRect};
use lntrn_compositor::counters::{counters_enabled, DebugCounters};
use lntrn_compositor::geometry::Rect;
use lntrn_compositor::outputs::{
    exclusive_zone_offsets, layer_surface_size, new_output_position, select_mode, ModeInfo, next_desktop_panel, output_at_point, LayerSizing, output_has_fullscreen, panel_name,
    total_output_bounds, LayerZone,
};
use lntrn_compositor::switcher::SwitcherState;

fn zone(top: bool, bottom: bool, left: bool, right: bool, z: i32, m: i32) -> LayerZone {
    LayerZone {
        anchor_top: top,
        anchor_bottom: bottom,
        anchor_left: left,
        anchor_right: right,
        zone: z,
        margin_top: m,
        margin_bottom: m,
        margin_left: m,
        margin_right: m,
    }
}

#[test]
fn counters_report_and_reset() {
    let mut c = DebugCounters::new(true);
    c.record_render(3);
    c.record_render(2);
    assert_eq!(c.renders, 2);
    assert_eq!(c.frame_callbacks, 5);
    assert_eq!(c.maybe_report(999_999), None);
    let snap = c.maybe_report(1_000_000).unwrap();
    assert_eq!(snap.renders, 2);
    assert_eq!(c.renders, 0);
    assert_eq!(c.frame_callbacks, 0);
    assert!(c.enabled);
    let mut off = DebugCounters::new(false);
    off.record_render(1);
    assert_eq!(off.renders, 0);
    assert_eq!(off.maybe_report(5_000_000), None);
}

#[test]
fn counters_switch() {
    assert!(counters_enabled(Some("1"), false));
    assert!(!counters_enabled(Some("0"), false));
    assert!(counters_enabled(Some("0"), true));
    assert!(!counters_enabled(None, false));
    assert!(counters_enabled(Some("00"), false));
}

#[test]
fn exclusive_zones_fold() {
    let zs = vec![
        zone(true, false, true, true, 30, 2),
        zone(true, false, false, false, 20, 0),
        zone(false, true, false, false, 40, 4),
        zone(true, true, true, false, 50, 0),
        zone(true, true, false, false, 99, 0),
    ];
    let ins = exclusive_zone_offsets(&zs);
    assert_eq!((ins.top, ins.bottom, ins.left, ins.right), (32, 44, 50, 0));
    let none = exclusive_zone_offsets(&vec![]);
    assert_eq!((none.top, none.bottom, none.left, none.right), (0, 0, 0, 0));
}

#[test]
fn bounds_of_outputs() {
    assert_eq!(total_output_bounds(&vec![]), Rect::new(0, 0, 0, 0));
    let g = vec![Rect::new(0, 0, 1920, 1080), Rect::new(1920, -100, 1280, 1024)];
    assert_eq!(total_output_bounds(&g), Rect::new(0, -100, 3200, 1180));
}

#[test]
fn desktop_panel_rotation() {
    assert_eq!(next_desktop_panel(" terminal\n"), (1, 2));
    assert_eq!(next_desktop_panel("files"), (2, 0));
    assert_eq!(next_desktop_panel("nonsense"), (0, 1));
    assert_eq!(panel_name(1), "terminal");
}

#[test]
fn silent_switcher_skips_minimized() {
    let mut s = SwitcherState::new();
    let sel = s.start_silent(vec![10, 20, 30], vec!["a".into(), "b".into(), "c".into()], Some(10), vec![false, true, false]);
    assert_eq!(sel, Some(30));
    assert!(s.is_active());
    assert!(!s.is_visible());
    assert_eq!(s.advance(), Some(10));
    assert_eq!(s.retreat(), Some(30));
    assert!(s.should_promote(Some(300)));
    assert!(!s.should_promote(Some(100)));
    s.promote_to_visible();
    assert!(s.is_visible());
    assert_eq!(s.retreat(), Some(20));
    assert_eq!(s.advance(), Some(30));
}

#[test]
fn switcher_select_remove_and_scroll() {
    let mut s = SwitcherState::new();
    s.start_visible((1..=8).collect(), vec![], None, vec![false; 8]);
    assert!(s.is_hot_corner_mode());
    assert_eq!(s.selected_index(), 0);
    s.select(6);
    assert_eq!(s.selected_index(), 6);
    assert_eq!(s.scroll_offset(), 2);
    s.select(1);
    assert_eq!(s.scroll_offset(), 1);
    assert_eq!(s.remove_entry(0), Some(1));
    assert_eq!(s.selected_index(), 0);
    assert_eq!(s.entry_count(), 7);
    assert_eq!(s.remove_entry(50), None);
    s.dismiss();
    assert!(!s.is_active());
    assert_eq!(s.entry_count(), 0);
}

#[test]
fn empty_start_hides() {
    let mut s = SwitcherState::new();
    assert_eq!(s.start_silent(vec![], vec![], None, vec![]), None);
    assert!(!s.is_active());
    assert_eq!(s.advance(), None);
}

#[test]
fn point_on_an_output_finds_it() {
    let outs = vec![Rect::new(0, 0, 1920, 1080), Rect::new(1920, 0, 2560, 1440)];
    assert_eq!(output_at_point(&outs, 10, 10), Some(0));
    assert_eq!(output_at_point(&outs, 1920, 0), Some(1));
    assert_eq!(output_at_point(&outs, 1919, 1079), Some(0));
}

#[test]
fn point_off_every_output_takes_nearest_center() {
    let outs = vec![Rect::new(0, 0, 1920, 1080), Rect::new(1920, 0, 2560, 1440)];
    assert_eq!(output_at_point(&outs, 100, 1300), Some(0));
    assert_eq!(output_at_point(&outs, 4600, 100), Some(1));
    assert_eq!(output_at_point(&vec![], 0, 0), None);
    let twins = vec![Rect::new(0, 0, 100, 100), Rect::new(0, 0, 100, 100)];
    assert_eq!(output_at_point(&twins, 500, 500), Some(0));
}

#[test]
fn fullscreen_probe_just_inside_target() {
    let outs = vec![Rect::new(0, 0, 1920, 1080), Rect::new(1920, 0, 2560, 1440)];
    let targets = vec![Rect::new(1920, 0, 2560, 1440)];
    assert!(output_has_fullscreen(&outs, &targets, 1));
    assert!(!output_has_fullscreen(&outs, &targets, 0));
    assert!(!output_has_fullscreen(&outs, &vec![], 0));
}

fn sizing(neutral: bool, w: i32, h: i32, m: i32) -> LayerSizing {
    LayerSizing {
        anchor_top: true,
        anchor_bottom: true,
        anchor_left: true,
        anchor_right: true,
        width: w,
        height: h,
        margin_top: m,
        margin_bottom: m,
        margin_left: m,
        margin_right: m,
        neutral,
    }
}

#[test]
fn neutral_layer_avoids_other_zones() {
    let others = vec![
        zone(true, false, true, true, 34, 0),
        zone(false, true, true, true, 60, 5),
        zone(false, false, true, false, 10, 0),
        zone(true, true, true, true, 99, 0),
    ];
    assert_eq!(layer_surface_size(sizing(true, 0, 0, 0), &others, 1920, 1080), (1910, 986));
    assert_eq!(layer_surface_size(sizing(false, 0, 0, 0), &others, 1920, 1080), (1920, 1080));
    assert_eq!(layer_surface_size(sizing(true, 0, 0, 4), &others, 1920, 1080), (1902, 978));
    assert_eq!(layer_surface_size(sizing(true, 300, 200, 0), &others, 1920, 1080), (300, 200));
}

fn mode(w: u16, h: u16, refresh: u32, preferred: bool) -> ModeInfo {
    ModeInfo { w, h, refresh, preferred }
}

#[test]
fn mode_selection_prefers_fastest_at_preferred_size() {
    let modes = vec![
        mode(1920, 1080, 60, false),
        mode(2560, 1440, 60, true),
        mode(2560, 1440, 144, false),
        mode(1920, 1080, 240, false),
        mode(2560, 1440, 144, false),
    ];
    assert_eq!(select_mode(&modes), 4);
    assert_eq!(select_mode(&vec![mode(1280, 720, 60, false), mode(1920, 1080, 75, false), mode(1280, 720, 50, false)]), 0);
    assert_eq!(select_mode(&vec![mode(800, 600, 60, false)]), 0);
}

#[test]
fn new_output_goes_right_of_the_others() {
    assert_eq!(new_output_position(None, &vec![1920, 2560]), (4480, 0));
    assert_eq!(new_output_position(None, &vec![]), (0, 0));
    assert_eq!(new_output_position(Some((-1920, 100)), &vec![1920]), (-1920, 100));
}

fn card(entry_index: usize, x: i32, y: i32, w: i32, h: i32, selected: bool) -> CardRect {
    CardRect { entry_index, x, y, w, h, selected }
}

#[test]
fn card_hit_tests() {
    let cards = vec![card(3, 100, 300, 432, 281, false), card(4, 588, 345, 600, 390, true), card(5, 1244, 300, 432, 281, false)];
    assert_eq!(hit_test(&cards, 700, 500), Some(4));
    assert_eq!(hit_test(&cards, 150, 310), Some(3));
    assert_eq!(hit_test(&cards, 560, 500), None);
    assert_eq!(close_rect(cards[1]), (1150, 353, 30));
    assert_eq!(hit_test_close(&cards, 1160, 360), Some(4));
    assert_eq!(hit_test_close(&cards, 1180, 383), None);
    assert_eq!(hit_test_close(&cards, 500, 310), None);
}
