//! Performance counters that the compositor reports once a second when
//! debugging is switched on.

use vstd::prelude::*;

verus! {

/// Counting window of a report, in microseconds.
pub const COUNTER_REPORT_INTERVAL_MICROS: u64 = 1_000_000;

/// Event and time counters accumulated since the last report.
#[derive(Clone, Copy, Debug, PartialEq, Eq, Structural)]
pub struct DebugCounters {
    pub enabled: bool,
    pub renders: u64,
    pub frame_callbacks: u64,
    pub scheduled_renders: u64,
    pub forced_renders: u64,
    pub winit_redraw_requests: u64,
    pub commits: u64,
    pub dispatch_iters: u64,
    pub dispatch_events: u64,
    pub dispatch_micros: u64,
    pub commit_micros: u64,
    pub render_micros: u64,
    pub loop_iters: u64,
    pub loop_micros: u64,
    pub flush_micros: u64,
    pub libinput_fires: u64,
    pub drm_fires: u64,
    pub timer_fires: u64,
    pub wayland_fires: u64,
    pub listener_fires: u64,
    pub udev_fires: u64,
    pub session_fires: u64,
    pub xwayland_fires: u64,
}

/// The counters of `c` all zero, its switch kept.
pub open spec fn zeroed(c: DebugCounters) -> DebugCounters {
    DebugCounters {
        enabled: c.enabled,
        renders: 0,
        frame_callbacks: 0,
        scheduled_renders: 0,
        forced_renders: 0,
        winit_redraw_requests: 0,
        commits: 0,
        dispatch_iters: 0,
        dispatch_events: 0,
        dispatch_micros: 0,
        commit_micros: 0,
        render_micros: 0,
        loop_iters: 0,
        loop_micros: 0,
        flush_micros: 0,
        libinput_fires: 0,
        drm_fires: 0,
        timer_fires: 0,
        wayland_fires: 0,
        listener_fires: 0,
        udev_fires: 0,
        session_fires: 0,
        xwayland_fires: 0,
    }
}

/// Counters are on when the environment switch is set to anything but `0`,
/// or when the flag file exists.
pub fn counters_enabled(env_value: Option<&str>, flag_file_exists: bool) -> (r: bool)
    ensures
        r == (match env_value {
            Some(v) => v@ != "0"@,
            None => false,
        } || flag_file_exists),
{
    let from_env = match env_value {
        Some(v) => {
            let cs = crate::text::to_chars(v);
            !crate::text::range_is(&cs, 0, cs.len(), "0")
        },
        None => false,
    };
    proof {
        if let Some(v) = env_value {
            assert(v@.subrange(0, v@.len() as int) =~= v@);
        }
    }
    from_env || flag_file_exists
}

impl DebugCounters {
    /// All counters zero.
    pub fn new(enabled: bool) -> (r: Self)
        ensures
            r == zeroed(r),
            r.enabled == enabled,
    {
        DebugCounters {
            enabled,
            renders: 0,
            frame_callbacks: 0,
            scheduled_renders: 0,
            forced_renders: 0,
            winit_redraw_requests: 0,
            commits: 0,
            dispatch_iters: 0,
            dispatch_events: 0,
            dispatch_micros: 0,
            commit_micros: 0,
            render_micros: 0,
            loop_iters: 0,
            loop_micros: 0,
            flush_micros: 0,
            libinput_fires: 0,
            drm_fires: 0,
            timer_fires: 0,
            wayland_fires: 0,
            listener_fires: 0,
            udev_fires: 0,
            session_fires: 0,
            xwayland_fires: 0,
        }
    }

    /// Report when enabled and a full interval has passed since the window
    /// started (`elapsed_micros` ago): the counters of the window are handed
    /// back for logging and reset, and the caller starts a new window.
    /// Otherwise nothing changes.
    pub fn maybe_report(&mut self, elapsed_micros: u64) -> (r: Option<DebugCounters>)
        ensures
            (old(self).enabled && elapsed_micros >= COUNTER_REPORT_INTERVAL_MICROS) ==> r == Some(*old(self))
                && *final(self) == zeroed(*old(self)),
            !(old(self).enabled && elapsed_micros >= COUNTER_REPORT_INTERVAL_MICROS) ==> r is None && *final(self)
                == *old(self),
    {
        if !self.enabled {
            return None;
        }
        if elapsed_micros < COUNTER_REPORT_INTERVAL_MICROS {
            return None;
        }
        let snapshot = *self;
        *self = DebugCounters::new(self.enabled);
        Some(snapshot)
    }

    /// Count one render and its frame callbacks, when enabled.
    pub fn record_render(&mut self, frame_callbacks: u64)
        requires
            old(self).enabled ==> old(self).renders < u64::MAX,
            old(self).enabled ==> old(self).frame_callbacks + frame_callbacks <= u64::MAX,
        ensures
            old(self).enabled ==> *final(self) == (DebugCounters {
                renders: (old(self).renders + 1) as u64,
                frame_callbacks: (old(self).frame_callbacks + frame_callbacks) as u64,
                ..*old(self)
            }),
            !old(self).enabled ==> *final(self) == *old(self),
    {
        if self.enabled {
            self.renders = self.renders + 1;
            self.frame_callbacks = self.frame_callbacks + frame_callbacks;
        }
    }
}

/// After a report the next window starts from zero, so a report right away
/// hands back zeros.
pub proof fn lemma_report_resets(c: DebugCounters)
    requires
        c.enabled,
    ensures
        zeroed(zeroed(c)) == zeroed(c),
        zeroed(c).enabled,
{
}

} // verus!
