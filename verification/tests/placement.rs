use lntrn_compositor::geometry::Rect;
use lntrn_compositor::placement::{
    adjacent_output, axis_resize_height, axis_resize_width, axis_stops, axis_thirds, cross_target, edge_pin, grid_work_area,
    nearest_i32_idx, one_cell_step, sanitize_restore_rect, step_idx, step_pos, swap_target,
    zone_cell, zone_from_grid, zone_target, ArrowDir, CellStep, EdgePin, MoveZone,
};
use lntrn_compositor::snap::Insets;

#[test]
fn grid_cells_round_trip() {
    let all = [
        MoveZone::TopLeft,
        MoveZone::TopCenter,
        MoveZone::TopRight,
        MoveZone::MidLeft,
        MoveZone::Center,
        MoveZone::MidRight,
        MoveZone::BotLeft,
        MoveZone::BotCenter,
        MoveZone::BotRight,
    ];
    for z in all {
        let (c, r) = zone_cell(z);
        assert_eq!(zone_from_grid(c, r), z);
    }
    assert_eq!(zone_from_grid(5, -1), MoveZone::TopRight);
    assert_eq!(zone_from_grid(-3, 9), MoveZone::BotLeft);
}

#[test]
fn work_area_and_zone_targets() {
    let work = grid_work_area(Rect::new(0, 0, 1920, 1080), Insets { top: 30, bottom: 0, left: 0, right: 0 }, 8);
    assert_eq!(work, Rect::new(8, 38, 1904, 1034));
    let w = Rect::new(10, 10, 900, 600);
    assert_eq!(zone_target(w, 300, 200, MoveZone::Center), Rect::new(310, 210, 300, 200));
    assert_eq!(zone_target(w, 300, 200, MoveZone::BotRight), Rect::new(610, 410, 300, 200));
    assert_eq!(zone_target(w, 5000, 0, MoveZone::TopLeft), Rect::new(10, 10, 900, 1));
}

#[test]
fn thirds_stops_and_steps() {
    assert_eq!(axis_thirds(1000, 40), [306, 652, 1000]);
    assert_eq!(axis_thirds(-5, 40), [1, 1, 1]);
    assert_eq!(axis_stops(0, 1000, 300, 40), [40, 350, 660]);
    assert_eq!(step_idx(0, true), 1);
    assert_eq!(step_idx(2, true), 2);
    assert_eq!(step_idx(0, false), 0);
    assert_eq!(step_idx(2, false), 1);
    assert_eq!(nearest_i32_idx(340, &[40, 350, 660]), 1);
    assert_eq!(nearest_i32_idx(195, &[40, 350, 660]), 0);
    assert_eq!(nearest_i32_idx(5, &[]), 0);
    assert_eq!(step_pos(345, 300, 0, 1000, 40, true), 660);
    assert_eq!(step_pos(345, 300, 0, 1000, 40, false), 40);
    assert_eq!(step_pos(700, 300, 0, 1000, 40, true), 660);
}

#[test]
fn edge_pinning() {
    let region = Rect::new(0, 0, 1000, 800);
    assert_eq!(edge_pin(40, 300, region, 48), Some(EdgePin::Left));
    assert_eq!(edge_pin(660, 300, region, 48), Some(EdgePin::Right));
    assert_eq!(edge_pin(300, 300, region, 48), None);
    assert_eq!(edge_pin(0, 1000, region, 48), Some(EdgePin::Left));
}

#[test]
fn one_cell_moves_and_crossings() {
    let work = Rect::new(0, 0, 900, 600);
    // At the centre cell, Left moves to the middle-left cell.
    assert_eq!(one_cell_step(300, 200, 300, 200, work, ArrowDir::Left), CellStep::Move(MoveZone::MidLeft));
    // In the first column, Left tries the neighbouring output.
    assert_eq!(one_cell_step(0, 400, 300, 200, work, ArrowDir::Left), CellStep::Cross(ArrowDir::Left, 2));
    // In the top row, Up stays.
    assert_eq!(one_cell_step(300, 0, 300, 200, work, ArrowDir::Up), CellStep::Stay);
    assert_eq!(one_cell_step(600, 0, 300, 200, work, ArrowDir::Right), CellStep::Cross(ArrowDir::Right, 0));
    assert_eq!(one_cell_step(300, 0, 300, 200, work, ArrowDir::Down), CellStep::Move(MoveZone::Center));
}

#[test]
fn neighbouring_output_choice_and_landing() {
    let outs = vec![
        Rect::new(0, 0, 1920, 1080),
        Rect::new(1920, 0, 1280, 1024),
        Rect::new(-1280, 0, 1280, 1024),
        Rect::new(4000, 0, 100, 100),
    ];
    assert_eq!(adjacent_output(outs[0], &outs, 0, ArrowDir::Right), Some(1));
    assert_eq!(adjacent_output(outs[0], &outs, 0, ArrowDir::Left), Some(2));
    assert_eq!(adjacent_output(outs[0], &outs, 0, ArrowDir::Up), None);
    assert_eq!(adjacent_output(outs[3], &outs, 3, ArrowDir::Right), None);
    let work = Rect::new(1928, 8, 1264, 1008);
    assert_eq!(cross_target(work, ArrowDir::Right, 1, 400, 300), Rect::new(1928, 362, 400, 300));
    assert_eq!(cross_target(work, ArrowDir::Left, 2, 400, 300), Rect::new(2792, 716, 400, 300));
}

#[test]
fn swap_target_uses_cone_and_distance() {
    let focus = Rect::new(0, 0, 100, 100);
    let others = vec![
        focus,
        Rect::new(300, 0, 100, 100),
        Rect::new(200, 250, 100, 100),
        Rect::new(-400, 0, 100, 100),
    ];
    assert_eq!(swap_target(focus, &others, 0, ArrowDir::Right), Some(1));
    assert_eq!(swap_target(focus, &others, 0, ArrowDir::Left), Some(3));
    assert_eq!(swap_target(focus, &others, 0, ArrowDir::Down), Some(2));
    assert_eq!(swap_target(focus, &others, 0, ArrowDir::Up), None);
}

#[test]
fn restore_rect_repair() {
    let out = Rect::new(0, 0, 1920, 1080);
    let good = Rect::new(100, 100, 800, 600);
    assert_eq!(sanitize_restore_rect(good, out, 1344, 756), good);
    let tiny = Rect::new(100, 100, 0, 0);
    assert_eq!(sanitize_restore_rect(tiny, out, 1344, 756), Rect::new(288, 162, 1344, 756));
    let off = Rect::new(5000, 5000, 800, 600);
    assert_eq!(sanitize_restore_rect(off, out, 100, 100), Rect::new(860, 440, 200, 200));
}

#[test]
fn edge_pinned_height_ladder() {
    let region = Rect::new(0, 30, 1920, 1050);
    assert_eq!(axis_resize_height(region, 40, 70, 800, 296, true), Some(Rect::new(40, 70, 800, 632)));
    assert_eq!(axis_resize_height(region, 40, 744, 800, 296, true), Some(Rect::new(40, 408, 800, 632)));
    assert_eq!(axis_resize_height(region, 40, 70, 800, 296, false), None);
    assert_eq!(axis_resize_height(region, 40, 70, 800, 970, true), None);
    assert_eq!(axis_resize_height(region, 40, 70, 800, 970, false), Some(Rect::new(40, 70, 800, 632)));
}

#[test]
fn edge_pinned_width_ladder() {
    let region = Rect::new(0, 30, 1920, 1050);
    assert_eq!(axis_resize_width(region, 1294, 70, 586, 500, true, EdgePin::Right), Some(Rect::new(668, 70, 1212, 500)));
    assert_eq!(axis_resize_width(region, 40, 70, 586, 500, true, EdgePin::Left), Some(Rect::new(40, 70, 1212, 500)));
    assert_eq!(axis_resize_width(region, 40, 70, 1840, 500, true, EdgePin::Left), None);
    assert_eq!(axis_resize_width(region, 40, 70, 1840, 500, false, EdgePin::Left), Some(Rect::new(40, 70, 1212, 500)));
}
