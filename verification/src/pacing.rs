//! Render pacing of the DRM outputs: a render request only raises an
//! output's flag; a one-shot timer flushes the flags, rendering each flagged
//! output that has no page-flip in flight, and the vblank that ends a flip
//! renders a flag raised meanwhile. A watchdog gives up on a flip that
//! stays pending past the vblank timeout, so an output never wedges.

use vstd::prelude::*;

verus! {

/// Pacing state of one output.
#[derive(Clone, Copy, Debug, PartialEq, Eq, Structural)]
pub struct OutputPacing {
    /// A page-flip was queued and its vblank has not arrived yet.
    pub frame_pending: bool,
    /// When the pending flip was queued (ns on the compositor's clock).
    pub frame_pending_since: Option<u64>,
    /// A render was requested and has not run yet.
    pub pending_render: bool,
}

/// Whether the watchdog gives up on the output's flip at `now`: one is
/// pending, queued at a known time, and longer ago than `timeout` (an
/// earlier clock reading counts as no time).
pub open spec fn flip_overdue(p: OutputPacing, now: u64, timeout: u64) -> bool {
    p.frame_pending && (p.frame_pending_since matches Some(t) && (if now >= t {
        now - t
    } else {
        0
    }) > timeout)
}

/// The output after the watchdog looked at it: an overdue flip is dropped
/// and a render requested in its place.
pub open spec fn after_watchdog(p: OutputPacing, now: u64, timeout: u64) -> OutputPacing {
    if flip_overdue(p, now, timeout) {
        OutputPacing { frame_pending: false, frame_pending_since: None, pending_render: true }
    } else {
        p
    }
}

/// Whether a flush renders the output (after the watchdog): a render is
/// requested and either the flush is forced or no flip is in flight.
pub open spec fn renders(p: OutputPacing, force: bool) -> bool {
    p.pending_render && (force || !p.frame_pending)
}

/// Flush one output at `now`: run the watchdog, then say whether to render
/// it now (see [`after_watchdog`] and [`renders`]). A flagged output with a
/// flip in flight is left to its vblank.
pub fn flush_output(p: &mut OutputPacing, now: u64, timeout: u64, force: bool) -> (render: bool)
    ensures
        *final(p) == after_watchdog(*old(p), now, timeout),
        render == renders(after_watchdog(*old(p), now, timeout), force),
{
    if p.frame_pending {
        if let Some(since) = p.frame_pending_since {
            if now.saturating_sub(since) > timeout {
                p.frame_pending = false;
                p.frame_pending_since = None;
                p.pending_render = true;
            }
        }
    }
    p.pending_render && (force || !p.frame_pending)
}

/// The outputs among the first `n` that a flush renders, in order.
pub open spec fn render_targets(ps: Seq<OutputPacing>, now: u64, timeout: u64, force: bool, n: int) -> Seq<usize>
    decreases n,
{
    if n <= 0 {
        Seq::empty()
    } else if renders(after_watchdog(ps[n - 1], now, timeout), force) {
        render_targets(ps, now, timeout, force, n - 1).push((n - 1) as usize)
    } else {
        render_targets(ps, now, timeout, force, n - 1)
    }
}

/// Flush every output at `now` (see [`flush_output`]): each one goes
/// through the watchdog, and the indices of those to render now are
/// returned in order.
pub fn flush_pending_renders(ps: &mut Vec<OutputPacing>, now: u64, timeout: u64, force: bool) -> (r: Vec<usize>)
    ensures
        final(ps)@.len() == old(ps)@.len(),
        forall|i: int|
            0 <= i < old(ps)@.len() ==> #[trigger] final(ps)@[i] == after_watchdog(old(ps)@[i], now, timeout),
        r@ == render_targets(old(ps)@, now, timeout, force, old(ps)@.len() as int),
{
    let mut targets: Vec<usize> = Vec::new();
    let mut i: usize = 0;
    while i < ps.len()
        invariant
            i <= ps@.len(),
            ps@.len() == old(ps)@.len(),
            forall|j: int|
                0 <= j < old(ps)@.len() ==> #[trigger] ps@[j] == if j < i {
                    after_watchdog(old(ps)@[j], now, timeout)
                } else {
                    old(ps)@[j]
                },
            targets@ == render_targets(old(ps)@, now, timeout, force, i as int),
        decreases ps@.len() - i,
    {
        let mut p = ps[i];
        let render = flush_output(&mut p, now, timeout, force);
        ps.set(i, p);
        if render {
            targets.push(i);
        }
        i += 1;
    }
    targets
}

/// Raise every output's render flag.
pub fn schedule_render_all(ps: &mut Vec<OutputPacing>)
    ensures
        final(ps)@.len() == old(ps)@.len(),
        forall|i: int|
            0 <= i < old(ps)@.len() ==> #[trigger] final(ps)@[i] == (OutputPacing {
                pending_render: true,
                ..old(ps)@[i]
            }),
{
    let mut i: usize = 0;
    while i < ps.len()
        invariant
            i <= ps@.len(),
            ps@.len() == old(ps)@.len(),
            forall|j: int|
                0 <= j < old(ps)@.len() ==> #[trigger] ps@[j] == if j < i {
                    OutputPacing { pending_render: true, ..old(ps)@[j] }
                } else {
                    old(ps)@[j]
                },
        decreases ps@.len() - i,
    {
        let p = ps[i];
        ps.set(i, OutputPacing { pending_render: true, ..p });
        i += 1;
    }
}

/// Raise the render flag of output `target`, or of every output when that
/// output has no live surface (`None`, or out of range).
pub fn schedule_render_output(ps: &mut Vec<OutputPacing>, target: Option<usize>)
    ensures
        final(ps)@.len() == old(ps)@.len(),
        forall|i: int|
            0 <= i < old(ps)@.len() ==> #[trigger] final(ps)@[i] == if (target matches Some(t) && t
                < old(ps)@.len()) && target != Some(i as usize) {
                old(ps)@[i]
            } else {
                OutputPacing { pending_render: true, ..old(ps)@[i] }
            },
{
    match target {
        Some(t) => {
            if t < ps.len() {
                let p = ps[t];
                ps.set(t, OutputPacing { pending_render: true, ..p });
                return;
            }
            schedule_render_all(ps);
        },
        None => schedule_render_all(ps),
    }
}

/// The vblank of the output's flip arrived: no flip is pending any more;
/// returns whether a render requested meanwhile is to run now.
pub fn frame_finish(p: &mut OutputPacing) -> (render: bool)
    ensures
        *final(p) == (OutputPacing { frame_pending: false, frame_pending_since: None, ..*old(p) }),
        render == old(p).pending_render,
{
    p.frame_pending = false;
    p.frame_pending_since = None;
    p.pending_render
}

/// A render of the output starts: its flag is cleared first, so a render
/// that gives up early cannot leave it raised and spin.
pub fn begin_render(p: &mut OutputPacing)
    ensures
        *final(p) == (OutputPacing { pending_render: false, ..*old(p) }),
{
    p.pending_render = false;
}

/// A render of the output ended at `now`: when it drew something
/// (`rendered`) and the page-flip was queued (`queued`), a flip is pending
/// since `now` and the watchdog is to be armed (the answer); when queueing
/// failed no flip is pending. A render with nothing drawn changes nothing.
pub fn finish_render(p: &mut OutputPacing, rendered: bool, queued: bool, now: u64) -> (arm_watchdog: bool)
    ensures
        *final(p) == if !rendered {
            *old(p)
        } else if queued {
            OutputPacing { frame_pending: true, frame_pending_since: Some(now), ..*old(p) }
        } else {
            OutputPacing { frame_pending: false, frame_pending_since: None, ..*old(p) }
        },
        arm_watchdog == (rendered && queued),
{
    if rendered {
        if queued {
            p.frame_pending = true;
            p.frame_pending_since = Some(now);
            true
        } else {
            p.frame_pending = false;
            p.frame_pending_since = None;
            false
        }
    } else {
        false
    }
}

/// How long after the last frame that sent frame callbacks the vblank
/// stream is kept going: 500 ms, in ns.
pub const CALLBACK_KEEPALIVE_NANOS: u64 = 500_000_000;

/// After a render at `now`: the time of the last render that sent frame
/// callbacks (now, if this one sent any), and whether to schedule another
/// render: while an animation runs, or while clients got callbacks less
/// than the keep-alive ago (so they keep committing at the refresh rate).
pub fn keep_rendering(animating: bool, callbacks_sent: usize, last_callback_render: u64, now: u64) -> (r: (u64, bool))
    ensures
        r.0 == if callbacks_sent > 0 {
            now
        } else {
            last_callback_render
        },
        r.1 == (animating || (if now >= r.0 {
            now - r.0
        } else {
            0
        }) < CALLBACK_KEEPALIVE_NANOS),
{
    let last = if callbacks_sent > 0 {
        now
    } else {
        last_callback_render
    };
    let recent = now.saturating_sub(last) < CALLBACK_KEEPALIVE_NANOS;
    (last, animating || recent)
}

/// No output wedges: a flush after the vblank timeout has passed on a
/// pending flip renders that output, forced or not.
pub proof fn lemma_watchdog_recovers(p: OutputPacing, now: u64, timeout: u64, force: bool)
    requires
        flip_overdue(p, now, timeout),
    ensures
        renders(after_watchdog(p, now, timeout), force),
{
}

} // verus!
