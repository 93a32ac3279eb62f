//! Lists in which a key names at most one item: what the state lists and
//! the wallpaper cache keep, and why filtering, pushing a new key and
//! removing an item keep it.

use vstd::prelude::*;

verus! {

/// No two items of `l` have the same key.
pub open spec fn keys_once<T, K>(l: Seq<T>, key: spec_fn(T) -> K) -> bool {
    forall|i: int, j: int| 0 <= i < j < l.len() ==> key(l[i]) != key(l[j])
}

/// Keeping some items keeps the keys apart.
pub proof fn lemma_keys_once_filter<T, K>(l: Seq<T>, key: spec_fn(T) -> K, p: spec_fn(T) -> bool)
    requires
        keys_once(l, key),
    ensures
        keys_once(l.filter(p), key),
    decreases l.len(),
{
    reveal(Seq::filter);
    if l.len() > 0 {
        let rest = l.drop_last();
        assert(keys_once(rest, key)) by {
            assert forall|i: int, j: int| 0 <= i < j < rest.len() implies key(rest[i]) != key(rest[j]) by {
                assert(rest[i] == l[i] && rest[j] == l[j]);
            }
        }
        lemma_keys_once_filter(rest, key, p);
        let sub = rest.filter(p);
        if p(l.last()) {
            assert forall|k: int| 0 <= k < sub.len() implies key(#[trigger] sub[k]) != key(l.last()) by {
                assert(sub.contains(sub[k]));
                rest.lemma_filter_contains_rev(p, sub[k]);
                let m = choose|m: int| 0 <= m < rest.len() && rest[m] == sub[k];
                assert(l[m] == sub[k]);
            }
            assert forall|i: int, j: int| 0 <= i < j < sub.push(l.last()).len() implies key(
                sub.push(l.last())[i],
            ) != key(sub.push(l.last())[j]) by {
                if j == sub.len() {
                    assert(key(sub[i]) != key(l.last()));
                }
            }
        }
    }
}

/// Adding an item whose key is not yet there keeps the keys apart.
pub proof fn lemma_keys_once_push<T, K>(l: Seq<T>, key: spec_fn(T) -> K, x: T)
    requires
        keys_once(l, key),
        forall|i: int| 0 <= i < l.len() ==> key(#[trigger] l[i]) != key(x),
    ensures
        keys_once(l.push(x), key),
{
    assert forall|i: int, j: int| 0 <= i < j < l.push(x).len() implies key(l.push(x)[i]) != key(l.push(x)[j]) by {
        if j == l.len() {
            assert(key(l[i]) != key(x));
        }
    }
}

/// Taking an item out keeps the keys apart.
pub proof fn lemma_keys_once_remove<T, K>(l: Seq<T>, key: spec_fn(T) -> K, k: int)
    requires
        keys_once(l, key),
        0 <= k < l.len(),
    ensures
        keys_once(l.remove(k), key),
{
    let r = l.remove(k);
    assert forall|i: int, j: int| 0 <= i < j < r.len() implies key(r[i]) != key(r[j]) by {
        let a = if i < k { i } else { i + 1 };
        let b = if j < k { j } else { j + 1 };
        assert(r[i] == l[a] && r[j] == l[b]);
    }
}

} // verus!
