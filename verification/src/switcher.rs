//! Selection state of the Alt+Tab switcher: which windows it cycles, which
//! one is selected, which ones are minimized, and the visible window of the
//! card strip. A quick tap stays silent and skips minimized windows; once the
//! overlay is held open every window can be picked.

use vstd::prelude::*;

verus! {

/// Cards shown at once; the strip scrolls to keep the selection among them.
pub const MAX_VISIBLE: usize = 5;

/// How long Alt must be held before the silent switcher shows its overlay.
pub const HOLD_THRESHOLD_MS: u64 = 220;

/// Position `k` steps from `start` among `n` entries, wrapping.
pub open spec fn wrap_step(n: int, start: int, backward: bool, k: int) -> int {
    if backward {
        (start - k) % n
    } else {
        (start + k) % n
    }
}

/// The first of steps `k..=n` from `start` that lands on an entry that may
/// be selected (any entry, or a non-minimized one when `skip`).
pub open spec fn first_stop(minimized: Seq<bool>, start: int, backward: bool, skip: bool, k: int) -> Option<int>
    decreases minimized.len() + 1 - k,
{
    let n = minimized.len() as int;
    if k > n || k < 1 {
        None
    } else {
        let idx = wrap_step(n, start, backward, k);
        if !skip || !minimized[idx] {
            Some(idx)
        } else {
            first_stop(minimized, start, backward, skip, k + 1)
        }
    }
}

/// The entry one step from `start` (skipping minimized ones when `skip`);
/// `start` itself when every other entry is skipped.
pub open spec fn spec_step_index(minimized: Seq<bool>, start: int, backward: bool, skip: bool) -> int {
    if minimized.len() == 0 {
        0
    } else {
        match first_stop(minimized, start, backward, skip, 1) {
            Some(i) => i,
            None => start,
        }
    }
}

/// Index of the first of the first `n` entries of `s` equal to `f`.
pub open spec fn index_of(s: Seq<u64>, f: u64, n: int) -> Option<int>
    decreases n,
{
    if n <= 0 {
        None
    } else {
        match index_of(s, f, n - 1) {
            Some(i) => Some(i),
            None => if s[n - 1] == f {
                Some(n - 1)
            } else {
                None
            },
        }
    }
}

proof fn lemma_index_of_range(s: Seq<u64>, f: u64, n: int)
    requires
        0 <= n,
    ensures
        index_of(s, f, n) matches Some(i) ==> 0 <= i < n,
    decreases n,
{
    if n > 0 {
        lemma_index_of_range(s, f, n - 1);
    }
}

/// Scroll offset keeping `selected` among the `MAX_VISIBLE` shown cards.
pub open spec fn spec_scroll(len: int, selected: int, scroll: int) -> int {
    if len <= MAX_VISIBLE {
        0
    } else if selected < scroll {
        selected
    } else if selected >= scroll + MAX_VISIBLE {
        selected + 1 - MAX_VISIBLE
    } else {
        scroll
    }
}

/// Whether the cards shown from `scroll` on hold the selection: with at most
/// `MAX_VISIBLE` entries nothing scrolls; otherwise the selected card is
/// among the `MAX_VISIBLE` shown.
pub open spec fn scroll_shows(len: int, selected: int, scroll: int) -> bool {
    if len <= MAX_VISIBLE {
        scroll == 0
    } else {
        scroll <= selected < scroll + MAX_VISIBLE
    }
}

proof fn lemma_first_stop(minimized: Seq<bool>, start: int, backward: bool, skip: bool, k: int)
    requires
        minimized.len() > 0,
    ensures
        first_stop(minimized, start, backward, skip, k) matches Some(i) ==> 0 <= i < minimized.len(),
    decreases minimized.len() + 1 - k,
{
    if 1 <= k <= minimized.len() {
        lemma_first_stop(minimized, start, backward, skip, k + 1);
    }
}

/// The switcher's selection state.
pub struct SwitcherState {
    visible: bool,
    active: bool,
    entries: Vec<u64>,
    minimized: Vec<bool>,
    app_ids: Vec<String>,
    selected: usize,
    prev_selected: usize,
    original_focus: Option<u64>,
    scroll: usize,
    hot_corner: bool,
}

impl SwitcherState {
    pub closed spec fn spec_entries(&self) -> Seq<u64> {
        self.entries@
    }

    pub closed spec fn spec_minimized(&self) -> Seq<bool> {
        self.minimized@
    }

    pub closed spec fn spec_selected(&self) -> int {
        self.selected as int
    }

    pub closed spec fn spec_prev_selected(&self) -> int {
        self.prev_selected as int
    }

    pub closed spec fn spec_scroll_offset(&self) -> int {
        self.scroll as int
    }

    pub closed spec fn spec_visible(&self) -> bool {
        self.visible
    }

    pub closed spec fn spec_active(&self) -> bool {
        self.active
    }

    pub closed spec fn spec_hot_corner(&self) -> bool {
        self.hot_corner
    }

    pub closed spec fn spec_focus(&self) -> Option<u64> {
        self.original_focus
    }

    pub closed spec fn spec_app_ids(&self) -> Seq<String> {
        self.app_ids@
    }

    /// Every entry has a minimized flag; a non-empty switcher selects an
    /// entry; the shown cards hold the selection.
    pub closed spec fn wf(&self) -> bool {
        &&& self.minimized@.len() == self.entries@.len()
        &&& self.entries@.len() <= usize::MAX - MAX_VISIBLE
        &&& self.entries@.len() > 0 ==> self.selected < self.entries@.len()
        &&& scroll_shows(self.entries@.len() as int, self.selected as int, self.scroll as int)
    }

    /// An idle switcher.
    pub fn new() -> (r: Self)
        ensures
            r.wf(),
            r.spec_entries().len() == 0,
            !r.spec_active(),
            !r.spec_visible(),
            r.spec_selected() == 0,
            r.spec_minimized().len() == 0,
            r.spec_app_ids().len() == 0,
            r.spec_prev_selected() == 0,
            r.spec_scroll_offset() == 0,
            !r.spec_hot_corner(),
            r.spec_focus() is None,
    {
        SwitcherState {
            visible: false,
            active: false,
            entries: Vec::new(),
            minimized: Vec::new(),
            app_ids: Vec::new(),
            selected: 0,
            prev_selected: 0,
            original_focus: None,
            scroll: 0,
            hot_corner: false,
        }
    }

    fn step_index(&self, start: usize, backward: bool, skip_minimized: bool) -> (r: usize)
        requires
            self.wf(),
            self.entries@.len() > 0 ==> start < self.entries@.len(),
        ensures
            r == spec_step_index(self.minimized@, start as int, backward, skip_minimized),
            self.entries@.len() > 0 ==> r < self.entries@.len(),
    {
        let n = self.entries.len();
        if n == 0 {
            return 0;
        }
        proof {
            lemma_first_stop(self.minimized@, start as int, backward, skip_minimized, 1);
        }
        let mut idx = start;
        let mut k: usize = 0;
        proof {
            assert((start + 0) % (n as int) == start) by (nonlinear_arith)
                requires
                    0 <= start < n,
            ;
            assert((start - 0) % (n as int) == start) by (nonlinear_arith)
                requires
                    0 <= start < n,
            ;
        }
        while k < n
            invariant
                n == self.entries@.len() == self.minimized@.len(),
                start < n,
                k <= n,
                idx < n,
                idx == wrap_step(n as int, start as int, backward, k as int),
                first_stop(self.minimized@, start as int, backward, skip_minimized, 1) == first_stop(
                    self.minimized@,
                    start as int,
                    backward,
                    skip_minimized,
                    k + 1,
                ),
            decreases n - k,
        {
            idx = if backward {
                if idx == 0 {
                    n - 1
                } else {
                    idx - 1
                }
            } else {
                (idx + 1) % n
            };
            proof {
                let w = wrap_step(n as int, start as int, backward, k as int);
                if backward {
                    assert((start - (k + 1)) % (n as int) == if w == 0 { n - 1 } else { w - 1 }) by (nonlinear_arith)
                        requires
                            w == (start - k) % (n as int),
                            n > 0,
                    ;
                } else {
                    assert((start + (k + 1)) % (n as int) == (w + 1) % (n as int)) by (nonlinear_arith)
                        requires
                            w == (start + k) % (n as int),
                            n > 0,
                    ;
                }
            }
            k += 1;
            if !skip_minimized || !self.minimized[idx] {
                return idx;
            }
        }
        start
    }

    fn update_scroll(&mut self)
        requires
            old(self).selected <= usize::MAX - MAX_VISIBLE,
        ensures
            final(self).scroll == spec_scroll(old(self).entries@.len() as int, old(self).selected as int, old(self).scroll as int),
            scroll_shows(final(self).entries@.len() as int, final(self).selected as int, final(self).scroll as int),
            final(self).entries == old(self).entries,
            final(self).minimized == old(self).minimized,
            final(self).app_ids == old(self).app_ids,
            final(self).selected == old(self).selected,
            final(self).prev_selected == old(self).prev_selected,
            final(self).visible == old(self).visible,
            final(self).active == old(self).active,
            final(self).original_focus == old(self).original_focus,
            final(self).hot_corner == old(self).hot_corner,
    {
        if self.entries.len() <= MAX_VISIBLE {
            self.scroll = 0;
            return ;
        }
        if self.selected < self.scroll {
            self.scroll = self.selected;
        } else if self.selected >= self.scroll + MAX_VISIBLE {
            self.scroll = self.selected - (MAX_VISIBLE - 1);
        }
    }

    /// The selected window, if any.
    pub fn selected_surface(&self) -> (r: Option<u64>)
        ensures
            r == if 0 <= self.spec_selected() < self.spec_entries().len() {
                Some(self.spec_entries()[self.spec_selected()])
            } else {
                None
            },
    {
        if self.selected < self.entries.len() {
            Some(self.entries[self.selected])
        } else {
            None
        }
    }

    /// Begin cycling silently (no overlay yet). The selection starts one step
    /// after the focused window, skipping minimized ones; without a focused
    /// entry, at the first entry unless it is minimized. Empty `entries`
    /// hide the switcher.
    pub fn start_silent(&mut self, entries: Vec<u64>, app_ids: Vec<String>, original_focus: Option<u64>, minimized: Vec<bool>) -> (r: Option<u64>)
        requires
            minimized@.len() == entries@.len(),
            entries@.len() <= usize::MAX - MAX_VISIBLE,
        ensures
            final(self).wf(),
            entries@.len() == 0 ==> !final(self).spec_active() && final(self).spec_entries().len() == 0 && r is None,
            entries@.len() > 0 ==> ({
                let focused = match original_focus {
                    Some(f) => index_of(entries@, f, entries@.len() as int),
                    None => None::<int>,
                };
                let sel = match focused {
                    Some(i) => spec_step_index(minimized@, i, false, true),
                    None => if !minimized@[0] {
                        0
                    } else {
                        spec_step_index(minimized@, 0, false, true)
                    },
                };
                &&& final(self).spec_active()
                &&& !final(self).spec_visible()
                &&& final(self).spec_entries() == entries@
                &&& final(self).spec_minimized() == minimized@
                &&& final(self).spec_app_ids() == app_ids@
                &&& final(self).spec_focus() == original_focus
                &&& final(self).spec_selected() == sel
                &&& final(self).spec_prev_selected() == sel
                &&& final(self).spec_scroll_offset() == spec_scroll(entries@.len() as int, sel, 0)
                &&& r == Some(entries@[sel])
            }),
    {
        if entries.len() == 0 {
            self.dismiss();
            return None;
        }
        self.entries = entries;
        self.app_ids = app_ids;
        self.original_focus = original_focus;
        self.minimized = minimized;
        self.scroll = 0;
        self.active = true;
        self.visible = false;
        self.selected = 0;
        let mut focused_idx: Option<usize> = None;
        if let Some(f) = original_focus {
            let mut i: usize = 0;
            while i < self.entries.len()
                invariant
                    i <= self.entries@.len(),
                    self.wf(),
                    self.entries@.len() > 0,
                    focused_idx == match index_of(self.entries@, f, i as int) {
                        Some(k) => Some(k as usize),
                        None => None::<usize>,
                    },
                decreases self.entries@.len() - i,
            {
                proof {
                    lemma_index_of_range(self.entries@, f, i as int);
                }
                if focused_idx.is_none() && self.entries[i] == f {
                    focused_idx = Some(i);
                }
                i += 1;
            }
            proof {
                lemma_index_of_range(self.entries@, f, i as int);
            }
        }
        self.selected = match focused_idx {
            Some(idx) => self.step_index(idx, false, true),
            None => {
                if !self.minimized[0] {
                    0
                } else {
                    self.step_index(0, false, true)
                }
            },
        };
        self.prev_selected = self.selected;
        self.update_scroll();
        self.selected_surface()
    }

    /// Open straight into the visible overlay (hot corner), selecting the
    /// first entry. Empty `entries` change nothing.
    pub fn start_visible(&mut self, entries: Vec<u64>, app_ids: Vec<String>, original_focus: Option<u64>, minimized: Vec<bool>)
        requires
            old(self).wf(),
            minimized@.len() == entries@.len(),
            entries@.len() <= usize::MAX - MAX_VISIBLE,
        ensures
            final(self).wf(),
            entries@.len() == 0 ==> *final(self) == *old(self),
            entries@.len() > 0 ==> {
                &&& final(self).spec_active()
                &&& final(self).spec_visible()
                &&& final(self).spec_hot_corner()
                &&& final(self).spec_entries() == entries@
                &&& final(self).spec_minimized() == minimized@
                &&& final(self).spec_app_ids() == app_ids@
                &&& final(self).spec_focus() == original_focus
                &&& final(self).spec_selected() == 0
                &&& final(self).spec_prev_selected() == 0
                &&& final(self).spec_scroll_offset() == 0
            },
    {
        if entries.len() == 0 {
            return ;
        }
        self.entries = entries;
        self.app_ids = app_ids;
        self.original_focus = original_focus;
        self.minimized = minimized;
        self.scroll = 0;
        self.active = true;
        self.visible = true;
        self.hot_corner = true;
        self.selected = 0;
        self.prev_selected = 0;
        self.update_scroll();
    }

    /// Select the next entry, wrapping; minimized ones are skipped while the
    /// overlay is silent. Returns the new selection; `None` (and no change)
    /// when the switcher is idle or empty.
    pub fn advance(&mut self) -> (r: Option<u64>)
        requires
            old(self).wf(),
        ensures
            final(self).wf(),
            !old(self).spec_active() || old(self).spec_entries().len() == 0 ==> r is None && *final(self) == *old(self),
            old(self).spec_active() && old(self).spec_entries().len() > 0 ==> ({
                let sel = spec_step_index(old(self).spec_minimized(), old(self).spec_selected(), false, !old(self).spec_visible());
                &&& final(self).spec_selected() == sel
                &&& final(self).spec_prev_selected() == old(self).spec_selected()
                &&& final(self).spec_scroll_offset() == spec_scroll(old(self).spec_entries().len() as int, sel, old(self).spec_scroll_offset())
                &&& final(self).spec_entries() == old(self).spec_entries()
                &&& final(self).spec_minimized() == old(self).spec_minimized()
                &&& final(self).spec_visible() == old(self).spec_visible()
                &&& final(self).spec_active()
                &&& r == Some(old(self).spec_entries()[sel])
            }),
    {
        if !self.active || self.entries.len() == 0 {
            return None;
        }
        self.prev_selected = self.selected;
        self.selected = self.step_index(self.selected, false, !self.visible);
        self.update_scroll();
        self.selected_surface()
    }

    /// Select the previous entry, wrapping (see [`SwitcherState::advance`]).
    pub fn retreat(&mut self) -> (r: Option<u64>)
        requires
            old(self).wf(),
        ensures
            final(self).wf(),
            !old(self).spec_active() || old(self).spec_entries().len() == 0 ==> r is None && *final(self) == *old(self),
            old(self).spec_active() && old(self).spec_entries().len() > 0 ==> ({
                let sel = spec_step_index(old(self).spec_minimized(), old(self).spec_selected(), true, !old(self).spec_visible());
                &&& final(self).spec_selected() == sel
                &&& final(self).spec_prev_selected() == old(self).spec_selected()
                &&& final(self).spec_scroll_offset() == spec_scroll(old(self).spec_entries().len() as int, sel, old(self).spec_scroll_offset())
                &&& final(self).spec_entries() == old(self).spec_entries()
                &&& final(self).spec_minimized() == old(self).spec_minimized()
                &&& final(self).spec_visible() == old(self).spec_visible()
                &&& final(self).spec_active()
                &&& r == Some(old(self).spec_entries()[sel])
            }),
    {
        if !self.active || self.entries.len() == 0 {
            return None;
        }
        self.prev_selected = self.selected;
        self.selected = self.step_index(self.selected, true, !self.visible);
        self.update_scroll();
        self.selected_surface()
    }

    /// A silent switcher shows its overlay once Alt has been held (for
    /// `held_ms`, when known) past the threshold.
    pub fn should_promote(&self, held_ms: Option<u64>) -> (r: bool)
        ensures
            r == (self.spec_active() && !self.spec_visible() && (held_ms matches Some(ms) && ms >= HOLD_THRESHOLD_MS)),
    {
        self.active && !self.visible && match held_ms {
            Some(ms) => ms >= HOLD_THRESHOLD_MS,
            None => false,
        }
    }

    /// Show the overlay of an active, silent switcher.
    pub fn promote_to_visible(&mut self)
        ensures
            old(self).spec_active() && !old(self).spec_visible() ==> final(self).spec_visible()
                && final(self).spec_prev_selected() == old(self).spec_selected() && final(self).spec_selected()
                == old(self).spec_selected() && final(self).spec_entries() == old(self).spec_entries()
                && final(self).spec_minimized() == old(self).spec_minimized() && final(self).spec_active()
                && final(self).spec_scroll_offset() == old(self).spec_scroll_offset(),
            !(old(self).spec_active() && !old(self).spec_visible()) ==> *final(self) == *old(self),
            old(self).wf() ==> final(self).wf(),
    {
        if !self.active || self.visible {
            return ;
        }
        self.visible = true;
        self.prev_selected = self.selected;
    }

    /// Close the switcher and forget its entries.
    pub fn dismiss(&mut self)
        ensures
            final(self).wf(),
            !final(self).spec_visible(),
            !final(self).spec_active(),
            !final(self).spec_hot_corner(),
            final(self).spec_entries().len() == 0,
            final(self).spec_app_ids().len() == 0,
            final(self).spec_selected() == 0,
            final(self).spec_prev_selected() == 0,
            final(self).spec_scroll_offset() == 0,
            final(self).spec_focus() is None,
    {
        self.visible = false;
        self.active = false;
        self.entries.clear();
        self.app_ids.clear();
        self.minimized.clear();
        self.selected = 0;
        self.prev_selected = 0;
        self.original_focus = None;
        self.scroll = 0;
        self.hot_corner = false;
    }

    pub fn is_hot_corner_mode(&self) -> (r: bool)
        ensures
            r == self.spec_hot_corner(),
    {
        self.hot_corner
    }

    /// Whether the overlay is showing (and has entries).
    pub fn is_visible(&self) -> (r: bool)
        ensures
            r == (self.spec_visible() && self.spec_entries().len() > 0),
    {
        self.visible && self.entries.len() > 0
    }

    /// Whether the switcher is cycling (and has entries).
    pub fn is_active(&self) -> (r: bool)
        ensures
            r == (self.spec_active() && self.spec_entries().len() > 0),
    {
        self.active && self.entries.len() > 0
    }

    pub fn entry_count(&self) -> (r: usize)
        ensures
            r == self.spec_entries().len(),
    {
        self.entries.len()
    }

    pub fn original_focus(&self) -> (r: Option<u64>)
        ensures
            r == self.spec_focus(),
    {
        self.original_focus
    }

    pub fn selected_index(&self) -> (r: usize)
        ensures
            r == self.spec_selected(),
    {
        self.selected
    }

    pub fn scroll_offset(&self) -> (r: usize)
        ensures
            r == self.spec_scroll_offset(),
    {
        self.scroll
    }

    /// Select entry `index` (a clicked card); out of range or already
    /// selected changes nothing.
    pub fn select(&mut self, index: usize)
        requires
            old(self).wf(),
        ensures
            final(self).wf(),
            index >= old(self).spec_entries().len() || index == old(self).spec_selected() ==> *final(self) == *old(self),
            index < old(self).spec_entries().len() && index != old(self).spec_selected() ==> {
                &&& final(self).spec_selected() == index
                &&& final(self).spec_prev_selected() == old(self).spec_selected()
                &&& final(self).spec_scroll_offset() == spec_scroll(old(self).spec_entries().len() as int, index as int, old(self).spec_scroll_offset())
                &&& final(self).spec_entries() == old(self).spec_entries()
                &&& final(self).spec_minimized() == old(self).spec_minimized()
                &&& final(self).spec_visible() == old(self).spec_visible()
                &&& final(self).spec_active() == old(self).spec_active()
            },
    {
        if index >= self.entries.len() || index == self.selected {
            return ;
        }
        self.prev_selected = self.selected;
        self.selected = index;
        self.update_scroll();
    }

    /// Pointer hover over the overlay: the card under the pointer (`hit`,
    /// from the settled layout) is selected when the overlay is shown, it is
    /// not already selected, and the pointer has travelled far enough since
    /// the last pick (`moved_enough`, measured by the caller). Returns
    /// whether the selection changed hands (then see [`SwitcherState::select`]
    /// for the new state); otherwise nothing changes.
    pub fn hover_select(&mut self, hit: Option<usize>, moved_enough: bool) -> (changed: bool)
        requires
            old(self).wf(),
        ensures
            final(self).wf(),
            changed == (old(self).spec_visible() && moved_enough && (hit matches Some(i) && i != old(self).spec_selected())),
            !changed ==> *final(self) == *old(self),
            changed && hit->0 >= old(self).spec_entries().len() ==> *final(self) == *old(self),
            changed && hit->0 < old(self).spec_entries().len() ==> {
                &&& final(self).spec_selected() == hit->0
                &&& final(self).spec_prev_selected() == old(self).spec_selected()
                &&& final(self).spec_scroll_offset() == spec_scroll(old(self).spec_entries().len() as int, hit->0 as int, old(self).spec_scroll_offset())
                &&& final(self).spec_entries() == old(self).spec_entries()
                &&& final(self).spec_minimized() == old(self).spec_minimized()
                &&& final(self).spec_visible() == old(self).spec_visible()
                &&& final(self).spec_active() == old(self).spec_active()
            },
    {
        if !self.visible {
            return false;
        }
        match hit {
            Some(idx) => {
                if idx != self.selected && moved_enough {
                    self.select(idx);
                    true
                } else {
                    false
                }
            },
            None => false,
        }
    }

    /// Remove entry `index` (its window was closed) and return it. The
    /// selection stays on the same window when an earlier entry goes, and
    /// wraps to the first when the selected last one goes; removing the last
    /// entry hides the switcher. Out of range changes nothing.
    pub fn remove_entry(&mut self, index: usize) -> (r: Option<u64>)
        requires
            old(self).wf(),
        ensures
            final(self).wf(),
            index >= old(self).spec_entries().len() ==> r is None && *final(self) == *old(self),
            index < old(self).spec_entries().len() ==> r == Some(old(self).spec_entries()[index as int])
                && final(self).spec_entries() == old(self).spec_entries().remove(index as int),
            index < old(self).spec_entries().len() && old(self).spec_entries().len() == 1 ==> !final(self).spec_active()
                && !final(self).spec_visible(),
            index < old(self).spec_entries().len() && old(self).spec_entries().len() > 1 ==> ({
                let n = old(self).spec_entries().len() - 1;
                let s = old(self).spec_selected();
                let sel = if s >= n {
                    0
                } else if s > index {
                    s - 1
                } else {
                    s
                };
                &&& final(self).spec_minimized() == old(self).spec_minimized().remove(index as int)
                &&& final(self).spec_selected() == sel
                &&& final(self).spec_prev_selected() == sel
                &&& final(self).spec_scroll_offset() == spec_scroll(n, sel, old(self).spec_scroll_offset())
                &&& final(self).spec_visible() == old(self).spec_visible()
                &&& final(self).spec_active() == old(self).spec_active()
            }),
    {
        if index >= self.entries.len() {
            return None;
        }
        let surface = self.entries.remove(index);
        self.minimized.remove(index);
        if index < self.app_ids.len() {
            self.app_ids.remove(index);
        }
        if self.entries.len() == 0 {
            let ghost removed = self.entries@;
            self.dismiss();
            proof {
                assert(removed.len() == 0);
            }
            return Some(surface);
        }
        if self.selected >= self.entries.len() {
            self.selected = 0;
        } else if self.selected > index {
            self.selected = self.selected - 1;
        }
        self.prev_selected = self.selected;
        self.update_scroll();
        Some(surface)
    }

    /// The app id of entry `index`, if it has one.
    pub fn app_id_at(&self, index: usize) -> (r: Option<&String>)
        ensures
            r == if index < self.spec_app_ids().len() {
                Some(&self.spec_app_ids()[index as int])
            } else {
                None
            },
    {
        if index < self.app_ids.len() {
            Some(&self.app_ids[index])
        } else {
            None
        }
    }
}

/// What well-formedness gives a caller: one minimized flag per entry, a
/// selection among the entries when there are any, and the selected card
/// among the shown ones (no scroll when all fit) after every operation.
pub proof fn lemma_wf_facts(sw: &SwitcherState)
    requires
        sw.wf(),
    ensures
        sw.spec_minimized().len() == sw.spec_entries().len(),
        sw.spec_entries().len() > 0 ==> 0 <= sw.spec_selected() < sw.spec_entries().len(),
        scroll_shows(sw.spec_entries().len() as int, sw.spec_selected(), sw.spec_scroll_offset()),
{
}

/// Retreat undoes advance on an open, visible switcher: stepping forward
/// then back from the selection lands on it again.
pub proof fn lemma_switcher_retreat_undoes_advance(sw: &SwitcherState)
    requires
        sw.wf(),
        sw.spec_visible(),
        sw.spec_entries().len() > 0,
    ensures
        spec_step_index(
            sw.spec_minimized(),
            spec_step_index(sw.spec_minimized(), sw.spec_selected(), false, !sw.spec_visible()),
            true,
            !sw.spec_visible(),
        ) == sw.spec_selected(),
{
    lemma_wf_facts(sw);
    lemma_retreat_undoes_advance(sw.spec_minimized(), sw.spec_selected());
}

/// After a scroll update the selected card is on screen: with at most
/// `MAX_VISIBLE` entries there is no scroll; otherwise the selection lies
/// within the shown cards, and a scroll that already showed it is kept.
pub proof fn lemma_scroll_keeps_selected_on_screen(len: int, selected: int, scroll: int)
    requires
        0 <= selected < len,
        0 <= scroll,
    ensures
        len <= MAX_VISIBLE ==> spec_scroll(len, selected, scroll) == 0,
        len > MAX_VISIBLE ==> spec_scroll(len, selected, scroll) <= selected < spec_scroll(len, selected, scroll)
            + MAX_VISIBLE,
        len > MAX_VISIBLE && scroll <= selected < scroll + MAX_VISIBLE ==> spec_scroll(len, selected, scroll)
            == scroll,
{
}

/// With the overlay open nothing is skipped, so a step back undoes a step
/// forward.
pub proof fn lemma_retreat_undoes_advance(minimized: Seq<bool>, start: int)
    requires
        0 <= start < minimized.len(),
    ensures
        spec_step_index(minimized, spec_step_index(minimized, start, false, false), true, false) == start,
{
    let n = minimized.len() as int;
    let f = (start + 1) % n;
    assert(spec_step_index(minimized, start, false, false) == f);
    assert(0 <= f < n) by (nonlinear_arith)
        requires
            n > 0,
            f == (start + 1) % n,
    ;
    assert((f - 1) % n == start) by (nonlinear_arith)
        requires
            n > 0,
            0 <= start < n,
            f == (start + 1) % n,
    ;
}

/// A silent step never lands on a minimized entry unless every other entry
/// is minimized (then it stays put).
pub proof fn lemma_silent_step_skips_minimized(minimized: Seq<bool>, start: int, backward: bool)
    requires
        0 <= start < minimized.len(),
    ensures
        spec_step_index(minimized, start, backward, true) == start || !minimized[spec_step_index(
            minimized,
            start,
            backward,
            true,
        )],
{
    lemma_stop_not_minimized(minimized, start, backward, 1);
}

proof fn lemma_stop_not_minimized(minimized: Seq<bool>, start: int, backward: bool, k: int)
    requires
        minimized.len() > 0,
    ensures
        first_stop(minimized, start, backward, true, k) matches Some(i) ==> !minimized[i],
    decreases minimized.len() + 1 - k,
{
    if 1 <= k <= minimized.len() {
        lemma_stop_not_minimized(minimized, start, backward, k + 1);
    }
}

} // verus!
