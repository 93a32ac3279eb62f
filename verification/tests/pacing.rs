use lntrn_compositor::pacing::{
    begin_render, finish_render, keep_rendering,
    flush_output, flush_pending_renders, frame_finish, schedule_render_all, schedule_render_output,
    OutputPacing,
};

const MS: u64 = 1_000_000;

fn idle() -> OutputPacing {
    OutputPacing { frame_pending: false, frame_pending_since: None, pending_render: false }
}

fn in_flight(since: u64, pending_render: bool) -> OutputPacing {
    OutputPacing { frame_pending: true, frame_pending_since: Some(since), pending_render }
}

#[test]
fn flagged_idle_output_renders() {
    let mut p = OutputPacing { pending_render: true, ..idle() };
    assert!(flush_output(&mut p, 0, 50 * MS, false));
    assert!(!flush_output(&mut idle(), 0, 50 * MS, false));
}

#[test]
fn flip_in_flight_defers_to_vblank_unless_forced() {
    let mut p = in_flight(100 * MS, true);
    assert!(!flush_output(&mut p, 120 * MS, 50 * MS, false));
    assert_eq!(p, in_flight(100 * MS, true));
    assert!(flush_output(&mut p, 120 * MS, 50 * MS, true));
}

#[test]
fn watchdog_drops_overdue_flip() {
    let mut p = in_flight(100 * MS, false);
    assert!(flush_output(&mut p, 151 * MS, 50 * MS, false));
    assert_eq!(p, OutputPacing { frame_pending: false, frame_pending_since: None, pending_render: true });
    let mut q = in_flight(100 * MS, false);
    assert!(!flush_output(&mut q, 150 * MS, 50 * MS, false));
    assert_eq!(q, in_flight(100 * MS, false));
}

#[test]
fn flush_lists_outputs_in_order() {
    let mut ps = vec![
        OutputPacing { pending_render: true, ..idle() },
        in_flight(0, true),
        idle(),
        in_flight(0, false),
    ];
    assert_eq!(flush_pending_renders(&mut ps, 10 * MS, 50 * MS, false), vec![0]);
    assert_eq!(flush_pending_renders(&mut ps, 100 * MS, 50 * MS, false), vec![0, 1, 3]);
    assert!(!ps[3].frame_pending);
}

#[test]
fn render_requests_raise_flags() {
    let mut ps = vec![idle(), idle(), in_flight(5, false)];
    schedule_render_output(&mut ps, Some(1));
    assert_eq!(ps.iter().map(|p| p.pending_render).collect::<Vec<_>>(), vec![false, true, false]);
    schedule_render_output(&mut ps, Some(9));
    assert!(ps.iter().all(|p| p.pending_render));
    let mut qs = vec![idle(), idle()];
    schedule_render_output(&mut qs, None);
    assert!(qs.iter().all(|p| p.pending_render));
    let mut rs = vec![idle()];
    schedule_render_all(&mut rs);
    assert!(rs[0].pending_render);
    assert!(!rs[0].frame_pending);
}

#[test]
fn vblank_clears_flip_and_reports_flag() {
    let mut p = in_flight(5, true);
    assert!(frame_finish(&mut p));
    assert_eq!(p, OutputPacing { frame_pending: false, frame_pending_since: None, pending_render: true });
    let mut q = in_flight(5, false);
    assert!(!frame_finish(&mut q));
}

#[test]
fn render_cycle_sets_and_clears_flip() {
    let mut p = OutputPacing { pending_render: true, ..idle() };
    begin_render(&mut p);
    assert!(!p.pending_render);
    assert!(finish_render(&mut p, true, true, 7));
    assert_eq!(p, in_flight(7, false));
    let mut q = idle();
    assert!(!finish_render(&mut q, true, false, 7));
    assert_eq!(q, idle());
    let mut r = in_flight(3, false);
    assert!(!finish_render(&mut r, false, true, 7));
    assert_eq!(r, in_flight(3, false));
}

#[test]
fn vblank_stream_kept_alive_after_callbacks() {
    assert_eq!(keep_rendering(false, 2, 0, 1_000 * MS), (1_000 * MS, true));
    assert_eq!(keep_rendering(false, 0, 1_000 * MS, 1_499 * MS), (1_000 * MS, true));
    assert_eq!(keep_rendering(false, 0, 1_000 * MS, 1_500 * MS), (1_000 * MS, false));
    assert_eq!(keep_rendering(true, 0, 0, 9_000 * MS), (0, true));
}
