//! Bookkeeping of the wallpaper buffers: which (output, size) keys have a
//! buffer, which have a decode job in flight, and which job results are
//! still wanted. The decoding itself runs on a worker thread outside.

use vstd::prelude::*;

use crate::unique::{keys_once, lemma_keys_once_filter, lemma_keys_once_push};

verus! {

/// An output name and the physical size of a buffer for it.
pub struct WallpaperKey {
    pub name: String,
    pub w: i32,
    pub h: i32,
}

/// A key as plain values.
pub open spec fn kv(k: &WallpaperKey) -> (Seq<char>, i32, i32) {
    (k.name@, k.w, k.h)
}

/// Keys as plain values.
pub open spec fn kvs(ks: Seq<WallpaperKey>) -> Seq<(Seq<char>, i32, i32)> {
    ks.map_values(|k: WallpaperKey| kv(&k))
}

impl WallpaperKey {
    /// A copy of the key.
    pub fn copy(&self) -> (r: WallpaperKey)
        ensures
            kv(&r) == kv(self),
    {
        WallpaperKey { name: self.name.clone(), w: self.w, h: self.h }
    }

    /// Whether two keys are equal.
    pub fn same(&self, other: &WallpaperKey) -> (r: bool)
        ensures
            r == (kv(self) == kv(other)),
    {
        self.w == other.w && self.h == other.h && self.name == other.name
    }
}

/// A finished decode from the worker: the key it was for, the generation it
/// was started in, and the pixels (empty when decoding failed).
pub struct WallpaperResult {
    pub key: WallpaperKey,
    pub generation: u64,
    pub rgba: Vec<u8>,
}

/// What accepting a worker result did.
#[derive(Clone, Copy, Debug, PartialEq, Eq, Structural)]
pub enum AcceptOutcome {
    /// Started before the last invalidation; dropped.
    Stale,
    /// Current, but the image could not be decoded; nothing installed.
    DecodeFailed,
    /// Installed, replacing the output's buffer of any other size.
    Installed,
}

/// Whether a key is for another output than `name`.
pub open spec fn not_of_output(name: Seq<char>) -> spec_fn((Seq<char>, i32, i32)) -> bool {
    |k: (Seq<char>, i32, i32)| k.0 != name
}

/// Whether a key is another than `k`.
pub open spec fn not_key(k: (Seq<char>, i32, i32)) -> spec_fn((Seq<char>, i32, i32)) -> bool {
    |x: (Seq<char>, i32, i32)| x != k
}

/// `ks` without the keys of output `name`.
pub open spec fn other_outputs(ks: Seq<(Seq<char>, i32, i32)>, name: Seq<char>) -> Seq<(Seq<char>, i32, i32)> {
    ks.filter(not_of_output(name))
}

/// `ks` without the key `k`.
pub open spec fn without_key(ks: Seq<(Seq<char>, i32, i32)>, k: (Seq<char>, i32, i32)) -> Seq<(Seq<char>, i32, i32)> {
    ks.filter(not_key(k))
}

/// Dropping a key keeps the others at most once each.
proof fn lemma_without_key_once(ks: Seq<(Seq<char>, i32, i32)>, k: (Seq<char>, i32, i32))
    requires
        keys_once(ks, |e: (Seq<char>, i32, i32)| e),
    ensures
        keys_once(without_key(ks, k), |e: (Seq<char>, i32, i32)| e),
{
    lemma_keys_once_filter(ks, |e: (Seq<char>, i32, i32)| e, not_key(k));
}

/// Dropping an output's buffers keeps the other outputs at one buffer each,
/// and leaves none of that output.
proof fn lemma_other_outputs_once(ks: Seq<(Seq<char>, i32, i32)>, name: Seq<char>)
    requires
        keys_once(ks, |e: (Seq<char>, i32, i32)| e.0),
    ensures
        keys_once(other_outputs(ks, name), |e: (Seq<char>, i32, i32)| e.0),
        forall|i: int| 0 <= i < other_outputs(ks, name).len() ==> (#[trigger] other_outputs(ks, name)[i]).0 != name,
{
    let p = not_of_output(name);
    lemma_keys_once_filter(ks, |e: (Seq<char>, i32, i32)| e.0, p);
    assert forall|i: int| 0 <= i < other_outputs(ks, name).len() implies (#[trigger] other_outputs(ks, name)[i]).0
        != name by {
        ks.lemma_filter_pred(p, i);
    }
}

/// Keys with a buffer and keys with a job in flight, and the generation
/// that results must carry to be accepted.
pub struct WallpaperCache {
    generation: u64,
    pending: Vec<WallpaperKey>,
    cached: Vec<WallpaperKey>,
}

impl WallpaperCache {
    pub closed spec fn spec_generation(&self) -> u64 {
        self.generation
    }

    pub closed spec fn spec_pending(&self) -> Seq<(Seq<char>, i32, i32)> {
        kvs(self.pending@)
    }

    pub closed spec fn spec_cached(&self) -> Seq<(Seq<char>, i32, i32)> {
        kvs(self.cached@)
    }

    /// No key has two jobs in flight, and no output has two buffers.
    pub open spec fn wf(&self) -> bool {
        &&& keys_once(self.spec_pending(), |e: (Seq<char>, i32, i32)| e)
        &&& keys_once(self.spec_cached(), |e: (Seq<char>, i32, i32)| e.0)
    }

    /// No buffers, no jobs, generation 0.
    pub fn new() -> (r: Self)
        ensures
            r.wf(),
            r.spec_generation() == 0,
            r.spec_pending().len() == 0,
            r.spec_cached().len() == 0,
    {
        WallpaperCache { generation: 0, pending: Vec::new(), cached: Vec::new() }
    }

    pub fn generation(&self) -> (r: u64)
        ensures
            r == self.spec_generation(),
    {
        self.generation
    }

    /// After an output changed mode, scale or position: jobs in flight are
    /// abandoned (their results will be stale); buffers stay as stand-ins.
    pub fn clear_cache(&mut self)
        requires
            old(self).wf(),
        ensures
            final(self).wf(),
            final(self).spec_pending().len() == 0,
            final(self).spec_cached() == old(self).spec_cached(),
            final(self).spec_generation() == (old(self).spec_generation() + 1) % 0x1_0000_0000_0000_0000,
    {
        self.pending = Vec::new();
        self.generation = self.generation.wrapping_add(1);
        proof {
            assert(kvs(self.pending@) =~= Seq::empty());
        }
    }

    /// After the configured paths changed: buffers and jobs are dropped.
    pub fn invalidate(&mut self)
        ensures
            final(self).wf(),
            final(self).spec_pending().len() == 0,
            final(self).spec_cached().len() == 0,
            final(self).spec_generation() == (old(self).spec_generation() + 1) % 0x1_0000_0000_0000_0000,
    {
        self.pending = Vec::new();
        self.cached = Vec::new();
        self.generation = self.generation.wrapping_add(1);
        proof {
            assert(kvs(self.pending@) =~= Seq::empty());
            assert(kvs(self.cached@) =~= Seq::empty());
        }
    }

    fn holds(v: &Vec<WallpaperKey>, key: &WallpaperKey) -> (r: bool)
        ensures
            r == kvs(v@).contains(kv(key)),
    {
        let mut i: usize = 0;
        while i < v.len()
            invariant
                i <= v@.len(),
                forall|j: int| 0 <= j < i ==> kv(&v@[j]) != kv(key),
            decreases v@.len() - i,
        {
            if v[i].same(key) {
                proof {
                    assert(kvs(v@)[i as int] == kv(key));
                }
                return true;
            }
            i += 1;
        }
        proof {
            if kvs(v@).contains(kv(key)) {
                let j = choose|j: int| 0 <= j < kvs(v@).len() && kvs(v@)[j] == kv(key);
                assert(kv(&v@[j]) == kv(key));
            }
        }
        false
    }

    /// Whether `key` has neither a buffer nor a job, so a job must start.
    pub fn needs_job(&self, key: &WallpaperKey) -> (r: bool)
        ensures
            r == (!self.spec_cached().contains(kv(key)) && !self.spec_pending().contains(kv(key))),
    {
        !Self::holds(&self.cached, key) && !Self::holds(&self.pending, key)
    }

    /// Record a job started for `key`.
    pub fn start_job(&mut self, key: &WallpaperKey)
        requires
            old(self).wf(),
        ensures
            final(self).wf(),
            old(self).spec_pending().contains(kv(key)) ==> final(self).spec_pending() == old(self).spec_pending(),
            !old(self).spec_pending().contains(kv(key)) ==> final(self).spec_pending() == old(self).spec_pending().push(
                kv(key),
            ),
            final(self).spec_cached() == old(self).spec_cached(),
            final(self).spec_generation() == old(self).spec_generation(),
    {
        if !Self::holds(&self.pending, key) {
            self.pending.push(key.copy());
            proof {
                assert(kvs(self.pending@) =~= kvs(old(self).pending@).push(kv(key)));
                let p0 = kvs(old(self).pending@);
                assert forall|i: int| 0 <= i < p0.len() implies (|e: (Seq<char>, i32, i32)| e)(#[trigger] p0[i])
                    != (|e: (Seq<char>, i32, i32)| e)(kv(key)) by {
                    assert(p0.contains(p0[i]));
                }
                lemma_keys_once_push(p0, |e: (Seq<char>, i32, i32)| e, kv(key));
            }
        }
    }

    fn drop_pending(&mut self, key: &WallpaperKey)
        requires
            old(self).wf(),
        ensures
            final(self).wf(),
            final(self).spec_pending() == without_key(old(self).spec_pending(), kv(key)),
            final(self).spec_cached() == old(self).spec_cached(),
            final(self).spec_generation() == old(self).spec_generation(),
    {
        let mut kept: Vec<WallpaperKey> = Vec::new();
        let mut i: usize = 0;
        while i < self.pending.len()
            invariant
                i <= self.pending@.len(),
                kvs(kept@) == without_key(kvs(self.pending@.take(i as int)), kv(key)),
            decreases self.pending@.len() - i,
        {
            proof {
                assert(kvs(self.pending@.take(i + 1)).drop_last() =~= kvs(self.pending@.take(i as int)));
                reveal(Seq::filter);
            }
            if !self.pending[i].same(key) {
                kept.push(self.pending[i].copy());
            }
            proof {
                assert(kvs(self.pending@.take(i + 1)).last() == kv(&self.pending@[i as int]));
                assert(kvs(kept@) =~= without_key(kvs(self.pending@.take(i + 1)), kv(key)));
            }
            i += 1;
        }
        proof {
            assert(self.pending@.take(i as int) =~= self.pending@);
            lemma_without_key_once(kvs(self.pending@), kv(key));
        }
        self.pending = kept;
    }

    /// A job could not start: forget it.
    pub fn job_failed(&mut self, key: &WallpaperKey)
        requires
            old(self).wf(),
        ensures
            final(self).wf(),
            final(self).spec_pending() == without_key(old(self).spec_pending(), kv(key)),
            final(self).spec_cached() == old(self).spec_cached(),
            final(self).spec_generation() == old(self).spec_generation(),
    {
        self.drop_pending(key);
    }

    /// The buffer to draw for `key`: its own when present, else the first
    /// buffer of the same output (stretched as a stand-in), else none.
    pub fn lookup(&self, key: &WallpaperKey) -> (r: Option<WallpaperKey>)
        ensures
            self.spec_cached().contains(kv(key)) ==> (r matches Some(k) && kv(&k) == kv(key)),
            !self.spec_cached().contains(kv(key)) ==> match r {
                Some(k) => k.name@ == key.name@ && exists|j: int|
                    0 <= j < self.spec_cached().len() && #[trigger] self.spec_cached()[j] == kv(&k) && forall|i: int|
                        0 <= i < j ==> self.spec_cached()[i].0 != key.name@,
                None => forall|i: int| 0 <= i < self.spec_cached().len() ==> self.spec_cached()[i].0 != key.name@,
            },
    {
        if Self::holds(&self.cached, key) {
            return Some(key.copy());
        }
        let mut i: usize = 0;
        while i < self.cached.len()
            invariant
                i <= self.cached@.len(),
                !kvs(self.cached@).contains(kv(key)),
                forall|j: int| 0 <= j < i ==> kvs(self.cached@)[j].0 != key.name@,
            decreases self.cached@.len() - i,
        {
            if self.cached[i].name == key.name {
                let k = self.cached[i].copy();
                proof {
                    assert(kvs(self.cached@)[i as int] == kv(&k));
                    assert(self.spec_cached()[i as int] == kv(&k));
                }
                return Some(k);
            }
            proof {
                assert(kvs(self.cached@)[i as int].0 == self.cached@[i as int].name@);
            }
            i += 1;
        }
        None
    }

    /// Take a worker result: its job is no longer pending; a result from an
    /// older generation is dropped; a failed decode installs nothing;
    /// otherwise its key replaces any buffer of the same output.
    pub fn accept(&mut self, result: &WallpaperResult) -> (r: AcceptOutcome)
        requires
            old(self).wf(),
        ensures
            final(self).wf(),
            final(self).spec_pending() == without_key(old(self).spec_pending(), kv(&result.key)),
            final(self).spec_generation() == old(self).spec_generation(),
            result.generation != old(self).spec_generation() ==> r == AcceptOutcome::Stale
                && final(self).spec_cached() == old(self).spec_cached(),
            result.generation == old(self).spec_generation() && result.rgba@.len() == 0 ==> r
                == AcceptOutcome::DecodeFailed && final(self).spec_cached() == old(self).spec_cached(),
            result.generation == old(self).spec_generation() && result.rgba@.len() > 0 ==> r
                == AcceptOutcome::Installed && final(self).spec_cached() == other_outputs(
                old(self).spec_cached(),
                result.key.name@,
            ).push(kv(&result.key)),
    {
        self.drop_pending(&result.key);
        if result.generation != self.generation {
            return AcceptOutcome::Stale;
        }
        if result.rgba.len() == 0 {
            return AcceptOutcome::DecodeFailed;
        }
        let mut kept: Vec<WallpaperKey> = Vec::new();
        let mut i: usize = 0;
        let ghost name = result.key.name@;
        while i < self.cached.len()
            invariant
                i <= self.cached@.len(),
                name == result.key.name@,
                kvs(kept@) == other_outputs(kvs(self.cached@.take(i as int)), name),
            decreases self.cached@.len() - i,
        {
            proof {
                assert(kvs(self.cached@.take(i + 1)).drop_last() =~= kvs(self.cached@.take(i as int)));
                reveal(Seq::filter);
            }
            if !(self.cached[i].name == result.key.name) {
                kept.push(self.cached[i].copy());
            }
            proof {
                assert(kvs(self.cached@.take(i + 1)).last() == kv(&self.cached@[i as int]));
                assert(kvs(kept@) =~= other_outputs(kvs(self.cached@.take(i + 1)), name));
            }
            i += 1;
        }
        proof {
            assert(self.cached@.take(i as int) =~= self.cached@);
        }
        kept.push(result.key.copy());
        proof {
            assert(kvs(kept@) =~= other_outputs(kvs(self.cached@), name).push(kv(&result.key)));
            let c0 = kvs(self.cached@);
            lemma_other_outputs_once(c0, name);
            let o = other_outputs(c0, name);
            assert forall|i: int| 0 <= i < o.len() implies (|e: (Seq<char>, i32, i32)| e.0)(#[trigger] o[i])
                != (|e: (Seq<char>, i32, i32)| e.0)(kv(&result.key)) by {}
            lemma_keys_once_push(o, |e: (Seq<char>, i32, i32)| e.0, kv(&result.key));
        }
        self.cached = kept;
        AcceptOutcome::Installed
    }
}

/// After a result is installed its output has exactly one buffer: the
/// result's.
pub proof fn lemma_one_buffer_per_output(cached: Seq<(Seq<char>, i32, i32)>, k: (Seq<char>, i32, i32))
    ensures
        forall|i: int|
            0 <= i < other_outputs(cached, k.0).push(k).len() && (#[trigger] other_outputs(cached, k.0).push(k)[i]).0
                == k.0 ==> other_outputs(cached, k.0).push(k)[i] == k,
{
    assert forall|i: int|
        0 <= i < other_outputs(cached, k.0).push(k).len() && (#[trigger] other_outputs(cached, k.0).push(k)[i]).0
            == k.0 implies other_outputs(cached, k.0).push(k)[i] == k by {
        let o = other_outputs(cached, k.0);
        if i < o.len() {
            cached.lemma_filter_pred(not_of_output(k.0), i);
        }
    }
}

} // verus!
