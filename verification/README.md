# lntrn-compositor

The window-management core of the Lantern Wayland compositor, written in
Verus: every executable function in `src/` is verified, and all but the
trivial ones state what they return or change in `ensures` contracts.
Properties that span calls are proved as public `lemma_*` proof functions,
each under the conditions its doc comment gives: a swap of two windows that
each occur once is undone by the same swap, removing a window undoes its
insertion, a retreat undoes an advance, a resize grows the window along its
split, and others.

## Layout

- `src/geometry.rs` — rectangles and the integer helpers everything else uses.
- `src/tiling.rs` — the binary tiling tree (insert, remove, swap, split
  ratios), its layout and seam/neighbour queries.
- `src/snap.rs`, `src/pose.rs`, `src/placement.rs` — snap zones, the posed
  slots and the size ladders, the move grid, edge-pinned resizing.
- `src/windows.rs`, `src/states.rs`, `src/close_pending.rs` —
  most-recently-used and spawn orders, the per-state window lists (each
  window at most once in each) and the maximize, solo-tile, pose, swap and
  restore steps, placement of new windows, round-robin cycling, and closes
  waiting for the client's answer.
- `src/unique.rs` — lists in which a key names at most one item.
- `src/switcher.rs`, `src/cards.rs` — the Alt+Tab switcher's state machine and
  the hit-testing of its cards.
- `src/ssd.rs`, `src/pointer.rs`, `src/outputs.rs` — server-side decorations
  and what they draw,
  the order in which surfaces are probed under the pointer, outputs, layer
  shell zones and display mode selection.
- `src/pacing.rs`, `src/timing.rs`, `src/counters.rs` — render scheduling,
  frame timing, snapshot fingerprints and debug counters.
- `src/config.rs`, `src/text.rs`, `src/keymap.rs`, `src/query.rs`,
  `src/trust.rs`, `src/wallpaper.rs`, `src/icons.rs` — the small config
  readers, the emoji keymap, the window-query reply, the client trust rule,
  wallpaper buffers and icon decoding and letterboxing.
- `app/` — glue that Verus does not see: smithay conversions, file and
  socket I/O, and the floating-point helpers.
- `tests/` — executable tests of the library.
