use lntrn_compositor::timing::{
    copy_frame, fastest_output_interval, frame_callback_interval, snapshot_is_stale, vblank_timeout,
    window_content_key, FNV_OFFSET, RENDER_INTERVAL_NANOS, VBLANK_TIMEOUT_FLOOR_NANOS,
};

#[test]
fn frame_interval_from_millihertz() {
    assert_eq!(frame_callback_interval(Some(60_000)), 16_666_666);
    assert_eq!(frame_callback_interval(Some(144_000)), 6_944_444);
    assert_eq!(frame_callback_interval(None), 16_666_666);
}

#[test]
fn frame_interval_of_nonpositive_refresh_uses_one_millihertz() {
    assert_eq!(frame_callback_interval(Some(0)), 1_000_000_000_000);
    assert_eq!(frame_callback_interval(Some(-5)), 1_000_000_000_000);
}

#[test]
fn fastest_interval_is_the_minimum() {
    assert_eq!(fastest_output_interval(&vec![]), RENDER_INTERVAL_NANOS);
    assert_eq!(fastest_output_interval(&vec![16_666_666, 6_944_444, 8_333_333]), 6_944_444);
}

#[test]
fn vblank_timeout_is_three_frames_with_a_floor() {
    assert_eq!(vblank_timeout(16_666_666), 49_999_998);
    assert_eq!(vblank_timeout(5_882_352), VBLANK_TIMEOUT_FLOOR_NANOS);
    assert_eq!(vblank_timeout(10_000_000), 30_000_000);
}

#[test]
fn content_key_folds_every_commit() {
    assert_eq!(window_content_key(&vec![]), FNV_OFFSET);
    assert_eq!(window_content_key(&vec![0]), 0x0831_c907_b4ea_2b60);
    assert_eq!(window_content_key(&vec![0, u64::MAX]), 0x294a_8d84_0b47_22d6);
    assert_ne!(window_content_key(&vec![1]), window_content_key(&vec![2]));
}

#[test]
fn snapshot_staleness() {
    assert!(snapshot_is_stale(None, 5));
    assert!(!snapshot_is_stale(Some((5, true)), 5));
    assert!(snapshot_is_stale(Some((4, true)), 5));
    assert!(!snapshot_is_stale(Some((4, false)), 5));
}

#[test]
fn copy_frame_respects_strides_and_heights() {
    let mut dst = vec![0xAAu8; 24];
    let pixels: Vec<u8> = (0u8..24).collect();
    copy_frame(&mut dst, 12, 2, &pixels, 2, 3);
    let mut expected = vec![0xAAu8; 24];
    expected[0..8].copy_from_slice(&pixels[0..8]);
    expected[12..20].copy_from_slice(&pixels[8..16]);
    assert_eq!(dst, expected);
}

#[test]
fn copy_frame_skips_rows_past_the_buffer() {
    let mut dst = vec![0u8; 10];
    let pixels = vec![7u8; 16];
    copy_frame(&mut dst, 8, 2, &pixels, 2, 2);
    assert_eq!(dst, vec![7, 7, 7, 7, 7, 7, 7, 7, 0, 0]);
}
