use lntrn_compositor::config::per_output_paths;
use lntrn_compositor::geometry::Rect;
use lntrn_compositor::pointer::{bottom_layer_rect, probe_order, LayerInfo, LayerKind, Probe};
use lntrn_compositor::snap::{Insets, SnapZone};
use lntrn_compositor::ssd::{window_corners, RoundedCorners};
use lntrn_compositor::wallpaper::{AcceptOutcome, WallpaperCache, WallpaperKey, WallpaperResult};
use lntrn_compositor::windows::{
    center_in_usable, compact_mru, cycle_list, cycle_next_window, toplevel_states, cycle_next, effective_rect, position_of, find_entry, forget_entries, has_entry,
    initial_size, minimize_target_in_output, output_at, pick_restore, placement_point,
    remember_window, restore_of, solo_tile_target, take_restore, tiling_area, track_spawn,
    StateEntry,
};

fn r(x: i32, y: i32, w: i32, h: i32) -> Rect {
    Rect::new(x, y, w, h)
}

fn key(name: &str, w: i32, h: i32) -> WallpaperKey {
    WallpaperKey { name: name.to_string(), w, h }
}

#[test]
fn mru_order() {
    let mut mru = vec![3, 1, 2, 1];
    remember_window(&mut mru, 1);
    assert_eq!(mru, vec![1, 3, 2]);
    remember_window(&mut mru, 9);
    assert_eq!(mru, vec![9, 1, 3, 2]);
    compact_mru(&mut mru, &vec![true, false, true, false]);
    assert_eq!(mru, vec![9, 3]);
    let mut order = vec![5];
    track_spawn(&mut order, 5);
    track_spawn(&mut order, 6);
    assert_eq!(order, vec![5, 6]);
}

#[test]
fn state_lists() {
    let e = |s: u64, x: i32| StateEntry { surface: s, restore: r(x, 0, 10, 10), target: r(0, 0, 100, 100) };
    let mut l = vec![e(1, 1), e(2, 2), e(1, 3)];
    assert_eq!(find_entry(&l, 1), Some(0));
    assert!(has_entry(&l, 2));
    assert!(!has_entry(&l, 4));
    assert_eq!(restore_of(&l, 2), Some(r(2, 0, 10, 10)));
    assert_eq!(take_restore(&mut l, 1), Some(r(1, 0, 10, 10)));
    assert_eq!(l.len(), 2);
    assert_eq!(take_restore(&mut l, 7), None);
    forget_entries(&mut l, 1);
    assert_eq!(l, vec![e(2, 2)]);
}

#[test]
fn restore_and_effective_rects() {
    let cur = r(1, 2, 3, 4);
    let m = r(5, 5, 5, 5);
    let a = r(9, 9, 9, 9);
    assert_eq!(pick_restore(Some(a), true, Some(m), None, cur), a);
    assert_eq!(pick_restore(None, true, Some(m), Some(a), cur), m);
    assert_eq!(pick_restore(None, true, None, Some(a), cur), cur);
    assert_eq!(pick_restore(None, false, Some(m), Some(a), cur), a);
    assert_eq!(pick_restore(None, false, None, None, cur), cur);
    assert_eq!(effective_rect(None, Some(a), Some(m), cur), a);
    assert_eq!(effective_rect(None, None, None, cur), cur);
}

#[test]
fn placement_and_centering() {
    assert_eq!(placement_point(Some(r(1920, 0, 1280, 1024))), (2560, 512));
    assert_eq!(placement_point(None), (0, 0));
    let ins = Insets { top: 40, bottom: 0, left: 0, right: 0 };
    assert_eq!(center_in_usable(r(0, 0, 1920, 1080), ins, 800, 600), (560, 260));
    // Larger than the usable area: pinned to its top-left.
    assert_eq!(center_in_usable(r(0, 0, 1920, 1080), ins, 2560, 1440), (0, 40));
    assert_eq!(initial_size(None, Some((300, 200)), Some((1500, 1000)), None), Some((300, 200)));
    assert_eq!(initial_size(None, None, None, Some((10, 10))), Some((10, 10)));
}

#[test]
fn solo_minimize_and_tiling_areas() {
    let geo = r(0, 0, 1920, 1080);
    let ins = Insets { top: 30, bottom: 0, left: 0, right: 0 };
    assert_eq!(solo_tile_target(geo, ins), r(40, 70, 1840, 970));
    assert_eq!(minimize_target_in_output(geo), r(936, 976, 48, 48));
    assert_eq!(tiling_area(geo, ins, 1, 8), r(40, 70, 1840, 970));
    assert_eq!(tiling_area(geo, ins, 3, 8), r(8, 38, 1904, 1034));
    let outs = vec![r(0, 0, 1920, 1080), r(1920, 0, 1280, 1024)];
    assert_eq!(output_at(&outs, 2000, 10), outs[1]);
    assert_eq!(output_at(&outs, -5, 10), outs[0]);
    assert_eq!(output_at(&vec![], 0, 0), r(0, 0, 1920, 1080));
}

#[test]
fn pointer_probe_order() {
    let out = r(0, 0, 1920, 1080);
    let layers = vec![
        LayerInfo { kind: LayerKind::Bottom, alive: true, on_output: true, rect: out },
        LayerInfo { kind: LayerKind::Top, alive: true, on_output: true, rect: r(0, 0, 1920, 40) },
        LayerInfo { kind: LayerKind::Overlay, alive: true, on_output: true, rect: out },
        LayerInfo { kind: LayerKind::Top, alive: false, on_output: true, rect: out },
        LayerInfo { kind: LayerKind::Background, alive: true, on_output: true, rect: out },
    ];
    assert_eq!(
        probe_order(&layers, true, false, 10, 10),
        vec![Probe::Layer(2), Probe::Layer(1), Probe::Windows, Probe::Layer(0)]
    );
    assert_eq!(probe_order(&layers, true, false, 10, 500), vec![Probe::Layer(2), Probe::Windows, Probe::Layer(0)]);
    assert_eq!(probe_order(&layers, true, true, 10, 10), vec![Probe::Windows, Probe::Layer(0)]);
    assert_eq!(probe_order(&layers, false, false, 10, 10), vec![Probe::Windows]);
    assert_eq!(bottom_layer_rect(5, 6, 0, 30, out), r(5, 6, 1920, 30));
}

#[test]
fn corners_by_state() {
    assert_eq!(window_corners(true, Some(SnapZone::Left)), RoundedCorners::none());
    assert_eq!(window_corners(false, Some(SnapZone::Left)), RoundedCorners::all());
    assert_eq!(window_corners(false, None), RoundedCorners::all());
}

#[test]
fn monitor_wallpapers() {
    let cfgs = vec![
        ("DP-1".to_string(), Some("/a.png".to_string())),
        ("DP-2".to_string(), Some(String::new())),
        ("HDMI".to_string(), None),
    ];
    assert_eq!(per_output_paths(cfgs), vec![("DP-1".to_string(), "/a.png".to_string())]);
}

#[test]
fn wallpaper_cache_flow() {
    let mut c = WallpaperCache::new();
    let k = key("DP-1", 1920, 1080);
    assert!(c.needs_job(&k));
    c.start_job(&k);
    assert!(!c.needs_job(&k));
    assert!(c.lookup(&k).is_none());
    let res = WallpaperResult { key: key("DP-1", 1920, 1080), generation: 0, rgba: vec![1, 2, 3, 4] };
    assert_eq!(c.accept(&res), AcceptOutcome::Installed);
    assert!(!c.needs_job(&k));
    let bigger = key("DP-1", 3840, 2160);
    let stand_in = c.lookup(&bigger).unwrap();
    assert_eq!((stand_in.name.as_str(), stand_in.w, stand_in.h), ("DP-1", 1920, 1080));
    c.start_job(&bigger);
    c.clear_cache();
    assert_eq!(c.generation(), 1);
    let old = WallpaperResult { key: key("DP-1", 3840, 2160), generation: 0, rgba: vec![1] };
    assert_eq!(c.accept(&old), AcceptOutcome::Stale);
    let failed = WallpaperResult { key: key("DP-1", 3840, 2160), generation: 1, rgba: vec![] };
    assert_eq!(c.accept(&failed), AcceptOutcome::DecodeFailed);
    let good = WallpaperResult { key: key("DP-1", 3840, 2160), generation: 1, rgba: vec![9] };
    assert_eq!(c.accept(&good), AcceptOutcome::Installed);
    let exact = c.lookup(&bigger).unwrap();
    assert_eq!(exact.w, 3840);
    assert!(c.needs_job(&k));
    c.invalidate();
    assert!(c.lookup(&bigger).is_none());
    c.start_job(&k);
    c.job_failed(&k);
    assert!(c.needs_job(&k));
}

#[test]
fn cycle_list_appends_minimized_not_mapped() {
    assert_eq!(cycle_list(&vec![1, 2], &vec![3, 2, 3, 4]), vec![1, 2, 3, 4]);
    assert_eq!(cycle_list(&vec![], &vec![5]), vec![5]);
}

#[test]
fn cycle_next_moves_round_robin() {
    let l = vec![10, 20, 30];
    assert_eq!(cycle_next(&l, Some(10)), Some(20));
    assert_eq!(cycle_next(&l, Some(30)), Some(10));
    assert_eq!(cycle_next(&l, Some(99)), Some(10));
    assert_eq!(cycle_next(&l, None), Some(10));
    assert_eq!(cycle_next(&vec![10], Some(10)), None);
    assert_eq!(cycle_next(&vec![], None), None);
}

#[test]
fn position_finds_first() {
    assert_eq!(position_of(&vec![4, 5, 4], 4), Some(0));
    assert_eq!(position_of(&vec![4, 5, 4], 5), Some(1));
    assert_eq!(position_of(&vec![4, 5, 4], 6), None);
}

#[test]
fn toplevel_state_flags() {
    assert_eq!(toplevel_states(true, false, true, false), vec![0, 2]);
    assert_eq!(toplevel_states(true, true, false, false), vec![1]);
    assert_eq!(toplevel_states(false, false, false, true), vec![3]);
    assert_eq!(toplevel_states(true, true, true, true), vec![1, 2, 3]);
    assert_eq!(toplevel_states(false, false, false, false), Vec::<u32>::new());
}

#[test]
fn cycle_next_window_reaches_minimized() {
    assert_eq!(cycle_next_window(&vec![1, 2], &vec![3], Some(2)), Some(3));
    assert_eq!(cycle_next_window(&vec![1, 2], &vec![3], Some(3)), Some(1));
    assert_eq!(cycle_next_window(&vec![1], &vec![1], Some(1)), None);
}
