use lntrn_compositor::geometry::Rect;
use lntrn_compositor::tiling::{adjacent_in_layout, split_area, AdjacentDir, SplitDirection, TilingState};

fn scale(w: i32, r: f32) -> i32 {
    ((w as f32) * r) as i32
}

fn area() -> Rect {
    Rect::new(0, 0, 1000, 800)
}

fn three() -> TilingState<f32> {
    let mut t = TilingState::<f32>::new(8, 8);
    t.insert(1, None, 0.5);
    t.insert(2, None, 0.5);
    t.insert(3, None, 0.5);
    t
}

#[test]
fn opposite_flips_and_flips_back() {
    assert_eq!(SplitDirection::Horizontal.opposite(), SplitDirection::Vertical);
    assert_eq!(SplitDirection::Vertical.opposite(), SplitDirection::Horizontal);
    assert_eq!(SplitDirection::Vertical.opposite().opposite(), SplitDirection::Vertical);
}

#[test]
fn new_tree_is_empty_and_inactive() {
    let t = TilingState::<f32>::new(8, 12);
    assert!(!t.is_active());
    assert_eq!(t.gap(), 8);
    assert_eq!(t.outer_gap(), 12);
    assert_eq!(t.leaf_count(), 0);
    assert!(t.compute_layout(area(), scale).is_empty());
}

#[test]
fn single_window_fills_area() {
    let mut t = TilingState::<f32>::new(8, 8);
    t.insert(1, None, 0.5);
    assert!(t.contains(1));
    assert_eq!(t.leaf_count(), 1);
    assert_eq!(t.compute_layout(area(), scale), vec![(1, area())]);
}

#[test]
fn two_windows_side_by_side_with_gap() {
    let mut t = TilingState::<f32>::new(8, 8);
    t.insert(1, None, 0.5);
    t.insert(2, None, 0.5);
    assert_eq!(
        t.compute_layout(area(), scale),
        vec![(1, Rect::new(0, 0, 496, 800)), (2, Rect::new(504, 0, 496, 800))]
    );
}

#[test]
fn third_window_splits_shallowest_leaf_vertically() {
    let t = three();
    assert_eq!(t.leaf_count(), 3);
    assert_eq!(
        t.compute_layout(area(), scale),
        vec![
            (1, Rect::new(0, 0, 496, 396)),
            (3, Rect::new(0, 404, 496, 396)),
            (2, Rect::new(504, 0, 496, 800)),
        ]
    );
}

#[test]
fn insert_near_splits_that_window() {
    let mut t = three();
    t.insert(4, Some(2), 0.5);
    let l = t.compute_layout(area(), scale);
    assert_eq!(l.len(), 4);
    assert_eq!(l[2], (2, Rect::new(504, 0, 496, 396)));
    assert_eq!(l[3], (4, Rect::new(504, 404, 496, 396)));
}

#[test]
fn remove_promotes_sibling() {
    let mut t = three();
    t.remove(1);
    assert!(!t.contains(1));
    assert_eq!(t.leaf_count(), 2);
    assert_eq!(
        t.compute_layout(area(), scale),
        vec![(3, Rect::new(0, 0, 496, 800)), (2, Rect::new(504, 0, 496, 800))]
    );
}

#[test]
fn remove_absent_changes_nothing_and_root_empties() {
    let mut t = TilingState::<f32>::new(8, 8);
    t.insert(7, None, 0.5);
    t.remove(9);
    assert_eq!(t.leaf_count(), 1);
    t.remove(7);
    assert_eq!(t.leaf_count(), 0);
    assert!(t.compute_layout(area(), scale).is_empty());
    t.insert(8, None, 0.5);
    assert_eq!(t.compute_layout(area(), scale), vec![(8, area())]);
}

#[test]
fn swap_exchanges_slots() {
    let mut t = three();
    t.swap(1, 2);
    assert_eq!(
        t.compute_layout(area(), scale),
        vec![
            (2, Rect::new(0, 0, 496, 396)),
            (3, Rect::new(0, 404, 496, 396)),
            (1, Rect::new(504, 0, 496, 800)),
        ]
    );
    t.swap(1, 1);
    t.swap(1, 42);
    assert_eq!(t.leaf_count(), 3);
}

#[test]
fn toggle_off_clears() {
    let mut t = three();
    assert!(t.toggle());
    assert_eq!(t.leaf_count(), 3);
    assert!(!t.toggle());
    assert_eq!(t.leaf_count(), 0);
}

#[test]
fn adjacent_windows_by_direction() {
    let t = three();
    assert_eq!(t.find_adjacent(1, area(), AdjacentDir::Right, scale), Some(2));
    assert_eq!(t.find_adjacent(1, area(), AdjacentDir::Down, scale), Some(3));
    assert_eq!(t.find_adjacent(1, area(), AdjacentDir::Left, scale), None);
    assert_eq!(t.find_adjacent(2, area(), AdjacentDir::Left, scale), Some(1));
    assert_eq!(t.find_adjacent(9, area(), AdjacentDir::Left, scale), None);
}

#[test]
fn adjacent_prefers_first_of_equals() {
    let layout = vec![
        (1, Rect::new(100, 100, 10, 10)),
        (2, Rect::new(200, 50, 10, 10)),
        (3, Rect::new(200, 150, 10, 10)),
    ];
    assert_eq!(adjacent_in_layout(&layout, 1, AdjacentDir::Right), Some(2));
}

#[test]
fn seam_and_node_rects() {
    let mut t = TilingState::<f32>::new(8, 8);
    t.insert(1, None, 0.5);
    t.insert(2, None, 0.5);
    // The root split sits in slot 0, the new leaf in 1, the moved leaf in 2.
    assert_eq!(t.seam_at(500, 100, area(), 5, scale), Some((0, area())));
    assert_eq!(t.seam_at(300, 100, area(), 5, scale), None);
    assert_eq!(t.node_rect(0, area(), scale), Some(area()));
    assert_eq!(t.node_rect(2, area(), scale), Some(Rect::new(0, 0, 496, 800)));
    assert_eq!(t.node_rect(1, area(), scale), Some(Rect::new(504, 0, 496, 800)));
    assert_eq!(t.node_rect(7, area(), scale), None);
    assert_eq!(t.split_dir(0), Some(SplitDirection::Horizontal));
    assert_eq!(t.split_dir(1), None);
    assert_eq!(t.split_ratio(0), Some(0.5));
}

#[test]
fn ancestor_split_and_resize() {
    let mut t = TilingState::<f32>::new(8, 8);
    t.insert(1, None, 0.5);
    t.insert(2, None, 0.5);
    assert_eq!(t.find_ancestor_split(1, SplitDirection::Horizontal, true), Some(0));
    assert_eq!(t.find_ancestor_split(1, SplitDirection::Horizontal, false), None);
    assert_eq!(t.find_ancestor_split(2, SplitDirection::Horizontal, false), Some(0));
    assert_eq!(t.find_ancestor_split(1, SplitDirection::Vertical, true), None);
    t.resize_split(1, |r: f32, left: bool| if left { r + 0.25 } else { r - 0.25 });
    assert_eq!(t.split_ratio(0), Some(0.75));
    t.resize_split(2, |r: f32, left: bool| if left { r + 0.25 } else { r - 0.25 });
    assert_eq!(t.split_ratio(0), Some(0.5));
    t.set_split_ratio(0, 0.25);
    assert_eq!(t.split_ratio(0), Some(0.25));
    t.set_split_ratio(1, 0.9);
    assert_eq!(t.split_ratio(1), None);
}

#[test]
fn split_area_halves_around_gap() {
    let (a, b) = split_area(Rect::new(10, 20, 100, 50), SplitDirection::Vertical, 25, 6);
    assert_eq!(a, Rect::new(10, 20, 100, 22));
    assert_eq!(b, Rect::new(10, 48, 100, 22));
}

#[test]
fn swapping_twice_restores_layout() {
    let mut t = three();
    let before = t.compute_layout(area(), scale);
    t.swap(3, 1);
    assert_ne!(t.compute_layout(area(), scale), before);
    t.swap(3, 1);
    assert_eq!(t.compute_layout(area(), scale), before);
}

#[test]
fn removing_what_was_inserted_restores_layout() {
    let mut t = three();
    let before = t.compute_layout(area(), scale);
    t.insert(9, Some(2), 0.5);
    assert_eq!(t.leaf_count(), 4);
    t.remove(9);
    assert_eq!(t.compute_layout(area(), scale), before);
    let mut e = TilingState::<f32>::new(8, 8);
    e.insert(4, None, 0.5);
    e.remove(4);
    assert!(e.compute_layout(area(), scale).is_empty());
}

#[test]
fn positive_resize_grows_the_window_along_its_split() {
    let grow = |r: f32, left: bool| if left { r + 0.1 } else { r - 0.1 };
    let width = |t: &TilingState<f32>, s: u64| {
        t.compute_layout(area(), scale).into_iter().find(|e| e.0 == s).map(|e| e.1.w).unwrap()
    };
    let height = |t: &TilingState<f32>, s: u64| {
        t.compute_layout(area(), scale).into_iter().find(|e| e.0 == s).map(|e| e.1.h).unwrap()
    };
    let mut t = three();
    let h1 = height(&t, 1);
    t.resize_split(1, grow);
    assert!(height(&t, 1) > h1);
    let h3 = height(&t, 3);
    t.resize_split(3, grow);
    assert!(height(&t, 3) > h3);
    let w2 = width(&t, 2);
    t.resize_split(2, grow);
    assert!(width(&t, 2) > w2);
}

#[test]
fn swapping_twice_restores_layout_beside_a_repeated_window() {
    let mut t = three();
    t.insert(5, None, 0.5);
    t.insert(5, None, 0.5);
    let before = t.compute_layout(area(), scale);
    t.swap(2, 3);
    t.swap(2, 3);
    assert_eq!(t.compute_layout(area(), scale), before);
}
