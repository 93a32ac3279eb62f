//! Windows the user closed while their client still has to answer. The
//! window is hidden and the client asked to close; on each tick a client
//! that died is forgotten, and one that kept its window (it drew something
//! new after a grace period, or simply stayed alive past a timeout) gets its
//! window back. The rest keep waiting.

use vstd::prelude::*;

verus! {

/// A commit this long after the close was sent is the client drawing
/// something new (a prompt), not a frame already on its way: 300 ms, in ns.
pub const COMMIT_GRACE_NANOS: u64 = 300_000_000;

/// A client still alive this long after the close keeps its window: 2 s,
/// in ns.
pub const ANSWER_TIMEOUT_NANOS: u64 = 2_000_000_000;

/// What becomes of a pending close on a tick.
#[derive(Clone, Copy, Debug, PartialEq, Eq, Structural)]
pub enum CloseVerdict {
    /// The client is gone: forget the window.
    Forget,
    /// The client kept its window: bring it back.
    BringBack,
    /// Still waiting for the answer.
    Wait,
}

/// One window whose close is pending: its surface, when the close was sent
/// (ns on the compositor's clock), whether the client drew since, and what
/// the caller needs to bring it back.
pub struct ClosePending<T> {
    pub surface: u64,
    pub sent_at_nanos: u64,
    pub committed: bool,
    pub payload: T,
}

/// The verdict on a pending close whose client is `alive`, that `committed`
/// since the close, `age` ns after the close was sent.
pub open spec fn spec_verdict(alive: bool, committed: bool, age: int) -> CloseVerdict {
    if !alive {
        CloseVerdict::Forget
    } else if (committed && age >= COMMIT_GRACE_NANOS) || age >= ANSWER_TIMEOUT_NANOS {
        CloseVerdict::BringBack
    } else {
        CloseVerdict::Wait
    }
}

/// Time from `sent` to `now`, zero when the clock reads earlier.
pub open spec fn elapsed(now: u64, sent: u64) -> int {
    if now >= sent {
        now - sent
    } else {
        0
    }
}

/// The verdict on a pending close whose client is `alive` (see
/// [`spec_verdict`]), the time being `now`.
pub fn close_verdict(alive: bool, committed: bool, sent_at_nanos: u64, now_nanos: u64) -> (v: CloseVerdict)
    ensures
        v == spec_verdict(alive, committed, elapsed(now_nanos, sent_at_nanos)),
{
    let age = now_nanos.saturating_sub(sent_at_nanos);
    if !alive {
        CloseVerdict::Forget
    } else if (committed && age >= COMMIT_GRACE_NANOS) || age >= ANSWER_TIMEOUT_NANOS {
        CloseVerdict::BringBack
    } else {
        CloseVerdict::Wait
    }
}

/// The verdict on the `i`-th of `entries`, given which clients are alive.
pub open spec fn verdict_at<T>(entries: Seq<ClosePending<T>>, alive: Seq<bool>, now: u64, i: int) -> CloseVerdict {
    spec_verdict(alive[i], entries[i].committed, elapsed(now, entries[i].sent_at_nanos))
}

/// The first `n` of `entries` whose verdict is `v`, in order.
pub open spec fn select<T>(entries: Seq<ClosePending<T>>, alive: Seq<bool>, now: u64, v: CloseVerdict, n: int) -> Seq<
    ClosePending<T>,
>
    decreases n,
{
    if n <= 0 {
        Seq::empty()
    } else if verdict_at(entries, alive, now, n - 1) == v {
        select(entries, alive, now, v, n - 1).push(entries[n - 1])
    } else {
        select(entries, alive, now, v, n - 1)
    }
}

/// `entries` without those of `surface`, in order.
pub open spec fn without_surface<T>(entries: Seq<ClosePending<T>>, surface: u64) -> Seq<ClosePending<T>> {
    entries.filter(|p: ClosePending<T>| p.surface != surface)
}

/// The pending closes, oldest first.
pub struct ClosePendingQueue<T> {
    pub entries: Vec<ClosePending<T>>,
}

/// The windows a tick lets go: those whose client died, and those whose
/// client kept them, each in queue order.
pub struct Settled<T> {
    pub forgotten: Vec<ClosePending<T>>,
    pub brought_back: Vec<ClosePending<T>>,
}

proof fn lemma_select_len<T>(entries: Seq<ClosePending<T>>, alive: Seq<bool>, now: u64, n: int)
    requires
        0 <= n,
    ensures
        select(entries, alive, now, CloseVerdict::Forget, n).len() + select(
            entries,
            alive,
            now,
            CloseVerdict::BringBack,
            n,
        ).len() + select(entries, alive, now, CloseVerdict::Wait, n).len() == n,
    decreases n,
{
    if n > 0 {
        lemma_select_len(entries, alive, now, n - 1);
    }
}

/// No close waits past the answer timeout: once every entry is at least
/// that old, a tick leaves nothing queued, whatever the clients did.
pub proof fn lemma_timeout_settles_all<T>(entries: Seq<ClosePending<T>>, alive: Seq<bool>, now: u64)
    requires
        alive.len() == entries.len(),
        forall|i: int| 0 <= i < entries.len() ==> elapsed(now, #[trigger] entries[i].sent_at_nanos) >= ANSWER_TIMEOUT_NANOS,
    ensures
        select(entries, alive, now, CloseVerdict::Wait, entries.len() as int).len() == 0,
{
    lemma_nothing_waits(entries, alive, now, entries.len() as int);
}

proof fn lemma_nothing_waits<T>(entries: Seq<ClosePending<T>>, alive: Seq<bool>, now: u64, n: int)
    requires
        n <= entries.len(),
        forall|i: int| 0 <= i < entries.len() ==> elapsed(now, #[trigger] entries[i].sent_at_nanos) >= ANSWER_TIMEOUT_NANOS,
    ensures
        select(entries, alive, now, CloseVerdict::Wait, n).len() == 0,
    decreases n,
{
    if n > 0 {
        lemma_nothing_waits(entries, alive, now, n - 1);
        assert(elapsed(now, entries[n - 1].sent_at_nanos) >= ANSWER_TIMEOUT_NANOS);
    }
}

impl<T> ClosePendingQueue<T> {
    /// An empty queue.
    pub fn new() -> (q: Self)
        ensures
            q.entries@.len() == 0,
    {
        ClosePendingQueue { entries: Vec::new() }
    }

    /// Whether no close is pending (no further check needs scheduling).
    pub fn is_empty(&self) -> (r: bool)
        ensures
            r == (self.entries@.len() == 0),
    {
        self.entries.len() == 0
    }

    /// Record that the close of `surface` was sent at `now_nanos`: an older
    /// entry for the same surface is dropped and the new one queued last.
    pub fn send_close_pending(&mut self, surface: u64, now_nanos: u64, payload: T)
        ensures
            final(self).entries@ == without_surface(old(self).entries@, surface).push(
                ClosePending { surface, sent_at_nanos: now_nanos, committed: false, payload },
            ),
    {
        let mut kept: Vec<ClosePending<T>> = Vec::new();
        let mut rest: Vec<ClosePending<T>> = Vec::new();
        std::mem::swap(&mut rest, &mut self.entries);
        let ghost orig = rest@;
        let n = rest.len();
        let mut i: usize = 0;
        while i < n
            invariant
                i <= n,
                n == orig.len(),
                rest@ == orig.skip(i as int),
                kept@ == without_surface(orig.take(i as int), surface),
            decreases n - i,
        {
            let p = rest.remove(0);
            proof {
                reveal(Seq::filter);
                assert(orig.take(i + 1).drop_last() =~= orig.take(i as int));
                assert(orig.take(i + 1).last() == p);
                assert(orig.skip(i + 1) =~= orig.skip(i as int).remove(0));
            }
            if p.surface != surface {
                kept.push(p);
            }
            i += 1;
        }
        proof {
            assert(orig.take(i as int) =~= orig);
        }
        kept.push(ClosePending { surface, sent_at_nanos: now_nanos, committed: false, payload });
        self.entries = kept;
    }

    /// A root surface committed: mark its pending close, if any.
    pub fn note_close_pending_commit(&mut self, surface: u64)
        ensures
            final(self).entries@.len() == old(self).entries@.len(),
            forall|i: int|
                0 <= i < old(self).entries@.len() ==> {
                    let p = #[trigger] final(self).entries@[i];
                    let q = old(self).entries@[i];
                    &&& p.surface == q.surface
                    &&& p.sent_at_nanos == q.sent_at_nanos
                    &&& p.payload == q.payload
                    &&& p.committed == (q.committed || q.surface == surface)
                },
    {
        let mut i: usize = 0;
        while i < self.entries.len()
            invariant
                i <= self.entries@.len(),
                self.entries@.len() == old(self).entries@.len(),
                forall|j: int|
                    0 <= j < old(self).entries@.len() ==> {
                        let p = #[trigger] self.entries@[j];
                        let q = old(self).entries@[j];
                        &&& p.surface == q.surface
                        &&& p.sent_at_nanos == q.sent_at_nanos
                        &&& p.payload == q.payload
                        &&& p.committed == if j < i {
                            q.committed || q.surface == surface
                        } else {
                            q.committed
                        }
                    },
            decreases self.entries@.len() - i,
        {
            if self.entries[i].surface == surface {
                let mut p = self.entries.remove(i);
                p.committed = true;
                self.entries.insert(i, p);
            }
            i += 1;
        }
    }

    /// Settle the queue at `now_nanos`, `alive[i]` telling whether the
    /// client of the `i`-th entry is still there: the entries still
    /// waiting for their answer stay queued in order; the others leave the
    /// queue, sorted into forgotten and brought back.
    pub fn tick_close_pending(&mut self, alive: &Vec<bool>, now_nanos: u64) -> (s: Settled<T>)
        requires
            alive@.len() == old(self).entries@.len(),
        ensures
            final(self).entries@ == select(
                old(self).entries@,
                alive@,
                now_nanos,
                CloseVerdict::Wait,
                old(self).entries@.len() as int,
            ),
            s.forgotten@ == select(
                old(self).entries@,
                alive@,
                now_nanos,
                CloseVerdict::Forget,
                old(self).entries@.len() as int,
            ),
            s.brought_back@ == select(
                old(self).entries@,
                alive@,
                now_nanos,
                CloseVerdict::BringBack,
                old(self).entries@.len() as int,
            ),
            final(self).entries@.len() + s.forgotten@.len() + s.brought_back@.len()
                == old(self).entries@.len(),
    {
        let mut waiting: Vec<ClosePending<T>> = Vec::new();
        let mut forgotten: Vec<ClosePending<T>> = Vec::new();
        let mut brought_back: Vec<ClosePending<T>> = Vec::new();
        let mut rest: Vec<ClosePending<T>> = Vec::new();
        std::mem::swap(&mut rest, &mut self.entries);
        let ghost orig = rest@;
        let n = rest.len();
        let mut i: usize = 0;
        while i < n
            invariant
                i <= n,
                n == orig.len(),
                alive@.len() == orig.len(),
                rest@ == orig.skip(i as int),
                waiting@ == select(orig, alive@, now_nanos, CloseVerdict::Wait, i as int),
                forgotten@ == select(orig, alive@, now_nanos, CloseVerdict::Forget, i as int),
                brought_back@ == select(orig, alive@, now_nanos, CloseVerdict::BringBack, i as int),
            decreases n - i,
        {
            let p = rest.remove(0);
            proof {
                assert(orig.skip(i + 1) =~= orig.skip(i as int).remove(0));
            }
            let v = close_verdict(alive[i], p.committed, p.sent_at_nanos, now_nanos);
            match v {
                CloseVerdict::Forget => forgotten.push(p),
                CloseVerdict::BringBack => brought_back.push(p),
                CloseVerdict::Wait => waiting.push(p),
            }
            i += 1;
        }
        proof {
            lemma_select_len(orig, alive@, now_nanos, orig.len() as int);
        }
        self.entries = waiting;
        Settled { forgotten, brought_back }
    }
}

} // verus!
