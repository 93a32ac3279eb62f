//! What the pointer is over: the order in which layer surfaces and windows
//! are probed for the surface under a point. The probes themselves (walking
//! a surface tree) are the windowing toolkit's; the order is decided here.

use vstd::prelude::*;

use crate::geometry::Rect;
use crate::outputs::{centers_fit, fullscreen_on_output, output_at_point, spec_fullscreen_on, spec_output_at_point};

verus! {

/// The layer-shell layer of a surface.
#[derive(Clone, Copy, Debug, PartialEq, Eq, Structural)]
pub enum LayerKind {
    Background,
    Bottom,
    Top,
    Overlay,
}

/// What the probe order needs to know of one layer surface.
#[derive(Clone, Copy, Debug, PartialEq, Eq, Structural)]
pub struct LayerInfo {
    pub kind: LayerKind,
    pub alive: bool,
    /// Assigned to the output under the pointer (or to no output).
    pub on_output: bool,
    /// Where the surface sits on that output.
    pub rect: Rect,
}

/// One probe for the surface under the pointer.
#[derive(Clone, Copy, Debug, PartialEq, Eq, Structural)]
pub enum Probe {
    /// Walk this layer surface's tree.
    Layer(usize),
    /// Walk the visible windows, topmost first.
    Windows,
}

/// Whether layer `l` takes part in the probe for its kind.
pub open spec fn eligible(l: LayerInfo, px: i32, py: i32) -> bool {
    l.alive && l.on_output && l.rect.spec_contains(px, py)
}

/// Layers above the windows (top and overlay) under the point, newest
/// (highest index) first, among the first `n`.
pub open spec fn upper_probes(layers: Seq<LayerInfo>, px: i32, py: i32, n: int) -> Seq<Probe>
    decreases n,
{
    if n <= 0 {
        Seq::empty()
    } else {
        let l = layers[n - 1];
        let here = if eligible(l, px, py) && (l.kind == LayerKind::Top || l.kind == LayerKind::Overlay) {
            seq![Probe::Layer((n - 1) as usize)]
        } else {
            Seq::empty()
        };
        here + upper_probes(layers, px, py, n - 1)
    }
}

/// Bottom layers under the point, oldest first, among the first `n`.
pub open spec fn lower_probes(layers: Seq<LayerInfo>, px: i32, py: i32, n: int) -> Seq<Probe>
    decreases n,
{
    if n <= 0 {
        Seq::empty()
    } else {
        let l = layers[n - 1];
        let here = if eligible(l, px, py) && l.kind == LayerKind::Bottom {
            seq![Probe::Layer((n - 1) as usize)]
        } else {
            Seq::empty()
        };
        lower_probes(layers, px, py, n - 1) + here
    }
}

/// The probe order for a point on the output with these layers (none when
/// the point is on no output): upper layers unless a fullscreen window owns
/// the output, then the windows, then the bottom layers.
pub open spec fn spec_probe_order(layers: Seq<LayerInfo>, on_output: bool, fullscreen: bool, px: i32, py: i32) -> Seq<Probe> {
    let n = layers.len() as int;
    let upper = if on_output && !fullscreen {
        upper_probes(layers, px, py, n)
    } else {
        Seq::empty()
    };
    let lower = if on_output {
        lower_probes(layers, px, py, n)
    } else {
        Seq::empty()
    };
    upper + seq![Probe::Windows] + lower
}

/// Whether layer `i` is an eligible upper layer.
fn upper_ok(l: &LayerInfo, px: i32, py: i32) -> (r: bool)
    ensures
        r == (eligible(*l, px, py) && (l.kind == LayerKind::Top || l.kind == LayerKind::Overlay)),
{
    l.alive && l.on_output && l.rect.contains(px, py) && (l.kind == LayerKind::Top || l.kind
        == LayerKind::Overlay)
}

/// The order in which to look for the surface under the point (see
/// [`spec_probe_order`]); the first probe that finds a surface wins.
pub fn probe_order(layers: &Vec<LayerInfo>, on_output: bool, fullscreen: bool, px: i32, py: i32) -> (r: Vec<Probe>)
    ensures
        r@ == spec_probe_order(layers@, on_output, fullscreen, px, py),
{
    let mut out: Vec<Probe> = Vec::new();
    let n = layers.len();
    if on_output && !fullscreen {
        let mut i = n;
        while i > 0
            invariant
                i <= n == layers@.len(),
                out@ + upper_probes(layers@, px, py, i as int) == upper_probes(layers@, px, py, n as int),
            decreases i,
        {
            let l = layers[i - 1];
            proof {
                assert(layers@[i - 1] == l);
            }
            if upper_ok(&l, px, py) {
                out.push(Probe::Layer(i - 1));
            }
            proof {
                let here = if eligible(l, px, py) && (l.kind == LayerKind::Top || l.kind == LayerKind::Overlay) {
                    seq![Probe::Layer((i - 1) as usize)]
                } else {
                    Seq::<Probe>::empty()
                };
                assert(upper_probes(layers@, px, py, i as int) == here + upper_probes(layers@, px, py, i - 1));
                assert(out@ + upper_probes(layers@, px, py, i - 1) =~= upper_probes(layers@, px, py, n as int));
            }
            i -= 1;
        }
        proof {
            assert(upper_probes(layers@, px, py, 0) =~= Seq::<Probe>::empty());
            assert(out@ =~= upper_probes(layers@, px, py, n as int));
        }
    }
    let ghost upper = out@;
    out.push(Probe::Windows);
    if on_output {
        let mut i: usize = 0;
        while i < n
            invariant
                i <= n == layers@.len(),
                out@ == upper + seq![Probe::Windows] + lower_probes(layers@, px, py, i as int),
            decreases n - i,
        {
            let l = layers[i];
            proof {
                assert(layers@[i as int] == l);
            }
            if l.alive && l.on_output && l.rect.contains(px, py) && l.kind == LayerKind::Bottom {
                out.push(Probe::Layer(i));
            }
            proof {
                assert(out@ =~= upper + seq![Probe::Windows] + lower_probes(layers@, px, py, i + 1));
            }
            i += 1;
        }
    }
    proof {
        assert(out@ =~= spec_probe_order(layers@, on_output, fullscreen, px, py));
    }
    out
}

/// A bottom layer asking for size 0 on an axis fills the output on it.
pub fn bottom_layer_rect(loc_x: i32, loc_y: i32, req_w: i32, req_h: i32, output: Rect) -> (r: Rect)
    ensures
        r == (Rect {
            x: loc_x,
            y: loc_y,
            w: if req_w > 0 {
                req_w
            } else {
                output.w
            },
            h: if req_h > 0 {
                req_h
            } else {
                output.h
            },
        }),
{
    Rect {
        x: loc_x,
        y: loc_y,
        w: if req_w > 0 {
            req_w
        } else {
            output.w
        },
        h: if req_h > 0 {
            req_h
        } else {
            output.h
        },
    }
}

/// Windows are always probed, and upper layers come before them: a layer
/// above the windows wins over any window.
pub proof fn lemma_windows_probed(layers: Seq<LayerInfo>, on_output: bool, fullscreen: bool, px: i32, py: i32)
    ensures
        spec_probe_order(layers, on_output, fullscreen, px, py).contains(Probe::Windows),
        fullscreen ==> spec_probe_order(layers, on_output, fullscreen, px, py)[0] == Probe::Windows,
{
    let upper = if on_output && !fullscreen {
        upper_probes(layers, px, py, layers.len() as int)
    } else {
        Seq::empty()
    };
    let lower = if on_output {
        lower_probes(layers, px, py, layers.len() as int)
    } else {
        Seq::empty()
    };
    assert((upper + seq![Probe::Windows] + lower)[upper.len() as int] == Probe::Windows);
}

/// A mapped window as the pointer sees it: its surface, and the output and
/// workspace it is tracked on (`None` for windows that float above every
/// workspace, such as override-redirect popups and the scratchpad).
#[derive(Clone, Copy, Debug, PartialEq, Eq, Structural)]
pub struct WindowCandidate {
    pub surface: u64,
    pub workspace: Option<WorkspaceRef>,
}

/// A workspace: the output it belongs to and its id there.
#[derive(Clone, Copy, Debug, PartialEq, Eq, Structural)]
pub struct WorkspaceRef {
    pub output: usize,
    pub id: u64,
}

/// Whether a window is on screen: it is on the active workspace of its
/// output (`active[o]` for output `o`; an unknown output has none), or it
/// is not workspace-tracked at all.
pub open spec fn spec_window_visible(w: WindowCandidate, active: Seq<u64>) -> bool {
    match w.workspace {
        Some(ws) => ws.output < active.len() && active[ws.output as int] == ws.id,
        None => true,
    }
}

/// Whether a window is on screen (see [`spec_window_visible`]).
pub fn window_is_visible(w: &WindowCandidate, active: &Vec<u64>) -> (r: bool)
    ensures
        r == spec_window_visible(*w, active@),
{
    match w.workspace {
        Some(ws) => ws.output < active.len() && active[ws.output] == ws.id,
        None => true,
    }
}

/// The visible windows among the first `n` (bottom to top), topmost first.
pub open spec fn visible_top_first(ws: Seq<WindowCandidate>, active: Seq<u64>, n: int) -> Seq<u64>
    decreases n,
{
    if n <= 0 {
        Seq::empty()
    } else {
        let here = if spec_window_visible(ws[n - 1], active) {
            seq![ws[n - 1].surface]
        } else {
            Seq::empty()
        };
        here + visible_top_first(ws, active, n - 1)
    }
}

/// Every window probed is on screen: no window on an inactive workspace can
/// take the pointer.
pub proof fn lemma_only_visible_windows_probed(ws: Seq<WindowCandidate>, active: Seq<u64>, n: int)
    requires
        0 <= n <= ws.len(),
    ensures
        forall|s: u64|
            #[trigger] visible_top_first(ws, active, n).contains(s) ==> exists|i: int|
                0 <= i < n && (#[trigger] ws[i]).surface == s && spec_window_visible(ws[i], active),
    decreases n,
{
    if n > 0 {
        lemma_only_visible_windows_probed(ws, active, n - 1);
        let here = if spec_window_visible(ws[n - 1], active) {
            seq![ws[n - 1].surface]
        } else {
            Seq::<u64>::empty()
        };
        let rest = visible_top_first(ws, active, n - 1);
        assert forall|s: u64| #[trigger] visible_top_first(ws, active, n).contains(s) implies exists|i: int|
            0 <= i < n && (#[trigger] ws[i]).surface == s && spec_window_visible(ws[i], active) by {
            let all = visible_top_first(ws, active, n);
            assert(all == here + rest);
            let k = choose|k: int| 0 <= k < all.len() && all[k] == s;
            if k < here.len() {
                assert(ws[n - 1].surface == s);
            } else {
                assert(rest[k - here.len()] == s);
                assert(rest.contains(s));
            }
        }
    }
}

/// What to look through for the surface under the pointer: the output under
/// it, the layer and window probes in order (see [`spec_probe_order`]), and
/// the windows to walk for the window probe, topmost first.
pub struct UnderPlan {
    pub output: Option<usize>,
    pub probes: Vec<Probe>,
    pub windows: Vec<u64>,
}

/// The probes for the surface under the pointer at `(px, py)`. `layers`
/// gives each layer surface relative to the output under the pointer (found
/// with [`output_at_point`]); `fullscreen_locs` is where each fullscreen
/// window is now; `windows` are the mapped windows bottom to top; `active`
/// the active workspace of each output. Top and overlay layers are skipped
/// when a fullscreen window's current top-left lies on the pointer's
/// output, and only windows on screen are walked.
pub fn surface_under(
    outputs: &Vec<Rect>,
    px: i32,
    py: i32,
    layers: &Vec<LayerInfo>,
    fullscreen_locs: &Vec<Option<(i32, i32)>>,
    windows: &Vec<WindowCandidate>,
    active: &Vec<u64>,
) -> (r: UnderPlan)
    requires
        centers_fit(outputs@),
    ensures
        match r.output {
            Some(o) => spec_output_at_point(outputs@, px as int, py as int) == Some(o as int),
            None => spec_output_at_point(outputs@, px as int, py as int) is None,
        },
        r.probes@ == spec_probe_order(
            layers@,
            r.output is Some,
            match r.output {
                Some(o) => spec_fullscreen_on(outputs@, fullscreen_locs@, o as int),
                None => false,
            },
            px,
            py,
        ),
        r.windows@ == visible_top_first(windows@, active@, windows@.len() as int),
        forall|s: u64|
            #[trigger] r.windows@.contains(s) ==> exists|i: int|
                0 <= i < windows@.len() && (#[trigger] windows@[i]).surface == s && spec_window_visible(
                    windows@[i],
                    active@,
                ),
{
    let output = output_at_point(outputs, px as i64, py as i64);
    let fullscreen = match output {
        Some(o) => fullscreen_on_output(outputs, fullscreen_locs, o),
        None => false,
    };
    let probes = probe_order(layers, output.is_some(), fullscreen, px, py);
    let mut seen: Vec<u64> = Vec::new();
    let mut i = windows.len();
    while i > 0
        invariant
            i <= windows@.len(),
            seen@ + visible_top_first(windows@, active@, i as int) == visible_top_first(
                windows@,
                active@,
                windows@.len() as int,
            ),
        decreases i,
    {
        let w = windows[i - 1];
        let vis = window_is_visible(&w, active);
        if vis {
            seen.push(w.surface);
        }
        proof {
            assert(windows@[i - 1] == w);
            let here = if spec_window_visible(w, active@) {
                seq![w.surface]
            } else {
                Seq::<u64>::empty()
            };
            assert(visible_top_first(windows@, active@, i as int) == here + visible_top_first(windows@, active@, i - 1));
            assert(seen@ + visible_top_first(windows@, active@, i - 1) =~= visible_top_first(
                windows@,
                active@,
                windows@.len() as int,
            ));
        }
        i -= 1;
    }
    proof {
        assert(visible_top_first(windows@, active@, 0) =~= Seq::<u64>::empty());
        assert(seen@ =~= visible_top_first(windows@, active@, windows@.len() as int));
        lemma_only_visible_windows_probed(windows@, active@, windows@.len() as int);
    }
    UnderPlan { output, probes, windows: seen }
}

} // verus!
