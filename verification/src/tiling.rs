//! BSP (binary space partition) tiling layout.
//!
//! An arena-backed binary tree: each node is a split (horizontal or vertical,
//! with a ratio) or a leaf holding a window id. The ratio type is a parameter
//! of the tree: the tree only stores, copies and hands ratios back, and the
//! layout functions take the function that turns a length and a ratio into the
//! first child's length.
//!
//! The tree is described by a ghost [`Shape`]: the same tree as a recursive
//! value, each node carrying its arena index. The arena and the shape agree
//! ([`matches`]), every occupied arena slot appears exactly once in the shape,
//! and every free slot is `Empty`.

use vstd::prelude::*;
use vstd::set_lib::*;
use vstd::seq_lib::lemma_multiset_commutative;
use vstd::multiset::Multiset;

use crate::geometry::Rect;
use crate::placement::rect_center;

verus! {

/// Direction of a split.
#[derive(Clone, Copy, Debug, PartialEq, Eq, Structural)]
pub enum SplitDirection {
    /// Children side by side (left | right).
    Horizontal,
    /// Children stacked (top / bottom).
    Vertical,
}

impl SplitDirection {
    pub open spec fn spec_opposite(self) -> SplitDirection {
        match self {
            SplitDirection::Horizontal => SplitDirection::Vertical,
            SplitDirection::Vertical => SplitDirection::Horizontal,
        }
    }

    /// The other direction.
    pub fn opposite(self) -> (r: SplitDirection)
        ensures
            r == self.spec_opposite(),
            r != self,
    {
        match self {
            SplitDirection::Horizontal => SplitDirection::Vertical,
            SplitDirection::Vertical => SplitDirection::Horizontal,
        }
    }
}

/// Taking the other direction twice gives the direction back.
pub proof fn lemma_opposite_involution(d: SplitDirection)
    ensures
        d.spec_opposite().spec_opposite() == d,
        d.spec_opposite() != d,
{
}

/// Direction in which to look for a neighbouring tile.
#[derive(Clone, Copy, Debug, PartialEq, Eq, Structural)]
pub enum AdjacentDir {
    Left,
    Right,
    Up,
    Down,
}

/// One arena slot.
#[derive(Clone, Copy, Debug)]
pub enum TilingNode<R> {
    Split { dir: SplitDirection, ratio: R, left: usize, right: usize },
    Leaf { surface: u64 },
    Empty,
}

/// The tree as a recursive value; every node carries its arena index.
pub enum Shape<R> {
    Leaf { idx: usize, surface: u64 },
    Split { idx: usize, dir: SplitDirection, ratio: R, left: Box<Shape<R>>, right: Box<Shape<R>> },
}

/// The tree without arena indices.
pub enum Tree<R> {
    Leaf { surface: u64 },
    Split { dir: SplitDirection, ratio: R, left: Box<Tree<R>>, right: Box<Tree<R>> },
}

impl<R> Shape<R> {
    /// Arena index of this node.
    pub open spec fn idx(self) -> usize {
        match self {
            Shape::Leaf { idx, .. } => idx,
            Shape::Split { idx, .. } => idx,
        }
    }

    /// Arena indices of every node in this subtree.
    pub open spec fn indices(self) -> Set<usize>
        decreases self,
    {
        match self {
            Shape::Leaf { idx, .. } => set![idx],
            Shape::Split { idx, left, right, .. } => left.indices().union(right.indices()).insert(
                idx,
            ),
        }
    }

    /// Window ids of the leaves, left to right.
    pub open spec fn leaves(self) -> Seq<u64>
        decreases self,
    {
        match self {
            Shape::Leaf { surface, .. } => seq![surface],
            Shape::Split { left, right, .. } => left.leaves() + right.leaves(),
        }
    }

    /// Number of nodes.
    pub open spec fn size(self) -> nat
        decreases self,
    {
        match self {
            Shape::Leaf { .. } => 1,
            Shape::Split { left, right, .. } => left.size() + right.size() + 1,
        }
    }

    /// Length of the longest root-to-leaf path, in edges.
    pub open spec fn height(self) -> nat
        decreases self,
    {
        match self {
            Shape::Leaf { .. } => 0,
            Shape::Split { left, right, .. } => 1 + if left.height() >= right.height() {
                left.height()
            } else {
                right.height()
            },
        }
    }

    /// The tree with its arena indices dropped.
    pub open spec fn erase(self) -> Tree<R>
        decreases self,
    {
        match self {
            Shape::Leaf { surface, .. } => Tree::Leaf { surface },
            Shape::Split { dir, ratio, left, right, .. } => Tree::Split {
                dir,
                ratio,
                left: Box::new(left.erase()),
                right: Box::new(right.erase()),
            },
        }
    }

    /// The subtree rooted at arena index `i` (meaningful when `i` is in `indices`).
    pub open spec fn sub_at(self, i: usize) -> Shape<R>
        decreases self,
    {
        match self {
            Shape::Leaf { .. } => self,
            Shape::Split { idx, left, right, .. } => if idx == i {
                self
            } else if left.indices().contains(i) {
                left.sub_at(i)
            } else {
                right.sub_at(i)
            },
        }
    }

    /// Arena index of the split whose child has index `c`, if any.
    pub open spec fn parent_of(self, c: usize) -> Option<usize>
        decreases self,
    {
        match self {
            Shape::Leaf { .. } => None,
            Shape::Split { idx, left, right, .. } => if left.idx() == c || right.idx() == c {
                Some(idx)
            } else if left.indices().contains(c) {
                left.parent_of(c)
            } else if right.indices().contains(c) {
                right.parent_of(c)
            } else {
                None
            },
        }
    }

    /// This tree with the subtree at arena index `i` replaced by `new`.
    pub open spec fn replace(self, i: usize, new: Shape<R>) -> Shape<R>
        decreases self,
    {
        if self.idx() == i {
            new
        } else {
            match self {
                Shape::Leaf { .. } => self,
                Shape::Split { idx, dir, ratio, left, right } => Shape::Split {
                    idx,
                    dir,
                    ratio,
                    left: Box::new(left.replace(i, new)),
                    right: Box::new(right.replace(i, new)),
                },
            }
        }
    }

    /// The leftmost among the shallowest leaves: its arena index and depth.
    pub open spec fn shallowest(self) -> (usize, nat)
        decreases self,
    {
        match self {
            Shape::Leaf { idx, .. } => (idx, 0),
            Shape::Split { left, right, .. } => {
                let (li, ld) = left.shallowest();
                let (ri, rd) = right.shallowest();
                if ld <= rd {
                    (li, ld + 1)
                } else {
                    (ri, rd + 1)
                }
            },
        }
    }

    /// Arena indices of the leaves.
    pub open spec fn leaf_set(self) -> Set<usize>
        decreases self,
    {
        match self {
            Shape::Leaf { idx, .. } => set![idx],
            Shape::Split { left, right, .. } => left.leaf_set().union(right.leaf_set()),
        }
    }

    /// The same node stored at arena index `i`.
    pub open spec fn with_idx(self, i: usize) -> Shape<R> {
        match self {
            Shape::Leaf { surface, .. } => Shape::Leaf { idx: i, surface },
            Shape::Split { dir, ratio, left, right, .. } => Shape::Split { idx: i, dir, ratio, left, right },
        }
    }

    /// The same node with its split ratio set to `r` (a leaf is unchanged).
    pub open spec fn with_ratio(self, r: R) -> Shape<R> {
        match self {
            Shape::Leaf { .. } => self,
            Shape::Split { idx, dir, left, right, .. } => Shape::Split { idx, dir, ratio: r, left, right },
        }
    }

    /// Whether a leaf of this subtree holds `surface`.
    pub open spec fn contains_surface(self, surface: u64) -> bool {
        self.leaves().contains(surface)
    }
}

/// The arena agrees with the shape, and the shape's indices are distinct.
pub open spec fn matches<R>(nodes: Seq<TilingNode<R>>, s: Shape<R>) -> bool
    decreases s,
{
    match s {
        Shape::Leaf { idx, surface } => idx < nodes.len() && nodes[idx as int]
            == TilingNode::<R>::Leaf { surface },
        Shape::Split { idx, dir, ratio, left, right } => {
            &&& idx < nodes.len()
            &&& nodes[idx as int] == TilingNode::<R>::Split {
                dir,
                ratio,
                left: left.idx(),
                right: right.idx(),
            }
            &&& matches(nodes, *left)
            &&& matches(nodes, *right)
            &&& left.indices().disjoint(right.indices())
            &&& !left.indices().contains(idx)
            &&& !right.indices().contains(idx)
        },
    }
}

/// Whether slot `i` of the arena is a leaf holding `surface`.
pub open spec fn is_leaf_of<R>(n: TilingNode<R>, surface: u64) -> bool {
    n matches TilingNode::Leaf { surface: s } && s == surface
}

/// Whether arena slot `n` is a split with child `c`.
pub open spec fn is_parent_of<R>(n: TilingNode<R>, c: usize) -> bool {
    n matches TilingNode::Split { left, right, .. } && (left == c || right == c)
}

/// Index of the first arena slot satisfying `p`.
#[verifier::opaque]
pub open spec fn first_where<R>(nodes: Seq<TilingNode<R>>, p: spec_fn(TilingNode<R>) -> bool) -> Option<
    int,
> {
    if exists|i: int| 0 <= i < nodes.len() && p(#[trigger] nodes[i]) {
        let i = choose|i: int|
            0 <= i < nodes.len() && p(#[trigger] nodes[i]) && forall|j: int|
                0 <= j < i ==> !p(#[trigger] nodes[j]);
        Some(i)
    } else {
        None
    }
}

/// Index of the first arena slot that is a leaf holding `surface`.
pub open spec fn first_leaf<R>(nodes: Seq<TilingNode<R>>, surface: u64) -> Option<int> {
    first_where(nodes, |n: TilingNode<R>| is_leaf_of(n, surface))
}

/// Index of the first arena slot that is a split with child `c`.
pub open spec fn first_parent<R>(nodes: Seq<TilingNode<R>>, c: usize) -> Option<int> {
    first_where(nodes, |n: TilingNode<R>| is_parent_of(n, c))
}

/// Index of the first free arena slot.
pub open spec fn first_empty<R>(nodes: Seq<TilingNode<R>>) -> Option<int> {
    first_where(nodes, |n: TilingNode<R>| n is Empty)
}

/// The first index satisfying `p` is `i` when `i` satisfies it and none before does.
proof fn lemma_first_where_is<R>(nodes: Seq<TilingNode<R>>, p: spec_fn(TilingNode<R>) -> bool, i: int)
    requires
        0 <= i < nodes.len(),
        p(nodes[i]),
        forall|j: int| 0 <= j < i ==> !p(#[trigger] nodes[j]),
    ensures
        first_where(nodes, p) == Some(i),
{
    reveal(first_where);
    let k = choose|k: int|
        0 <= k < nodes.len() && p(#[trigger] nodes[k]) && forall|j: int|
            0 <= j < k ==> !p(#[trigger] nodes[j]);
    assert(0 <= k < nodes.len() && p(nodes[k]) && forall|j: int| 0 <= j < k ==> !p(#[trigger] nodes[j]));
    if k < i {
        assert(!p(nodes[k]));
    }
    if i < k {
        assert(!p(nodes[i]));
    }
}

/// Facts about `first_where`'s result.
proof fn lemma_first_where_facts<R>(nodes: Seq<TilingNode<R>>, p: spec_fn(TilingNode<R>) -> bool)
    ensures
        match first_where(nodes, p) {
            Some(i) => 0 <= i < nodes.len() && p(nodes[i]) && forall|j: int|
                0 <= j < i ==> !p(#[trigger] nodes[j]),
            None => forall|j: int| 0 <= j < nodes.len() ==> !p(#[trigger] nodes[j]),
        },
{
    reveal(first_where);
    if exists|i: int| 0 <= i < nodes.len() && p(#[trigger] nodes[i]) {
        let i0 = choose|i: int| 0 <= i < nodes.len() && p(#[trigger] nodes[i]);
        let least = lemma_least_index(nodes, p, i0);
        lemma_first_where_is(nodes, p, least);
    } else {
        assert forall|j: int| 0 <= j < nodes.len() implies !p(#[trigger] nodes[j]) by {}
    }
}

proof fn lemma_least_index<R>(nodes: Seq<TilingNode<R>>, p: spec_fn(TilingNode<R>) -> bool, i: int) -> (k: int)
    requires
        0 <= i < nodes.len(),
        p(nodes[i]),
    ensures
        0 <= k <= i,
        p(nodes[k]),
        forall|j: int| 0 <= j < k ==> !p(#[trigger] nodes[j]),
    decreases i,
{
    if exists|j: int| 0 <= j < i && p(#[trigger] nodes[j]) {
        let j = choose|j: int| 0 <= j < i && p(#[trigger] nodes[j]);
        lemma_least_index(nodes, p, j)
    } else {
        i
    }
}

/// Number of leaf slots in the arena.
pub open spec fn count_leaves<R>(nodes: Seq<TilingNode<R>>) -> nat
    decreases nodes.len(),
{
    if nodes.len() == 0 {
        0
    } else {
        count_leaves(nodes.drop_last()) + if nodes.last() is Leaf {
            1nat
        } else {
            0nat
        }
    }
}

/// `matches` depends only on the arena slots the shape uses.
proof fn lemma_matches_frame<R>(n1: Seq<TilingNode<R>>, n2: Seq<TilingNode<R>>, s: Shape<R>)
    requires
        matches(n1, s),
        forall|i: usize| #[trigger]
            s.indices().contains(i) ==> i < n2.len() && n2[i as int] == n1[i as int],
    ensures
        matches(n2, s),
    decreases s,
{
    match s {
        Shape::Leaf { idx, .. } => {
            assert(s.indices().contains(idx));
        },
        Shape::Split { idx, left, right, .. } => {
            assert(s.indices().contains(idx));
            assert forall|i: usize| #[trigger] left.indices().contains(i) implies s.indices().contains(i) by {}
            assert forall|i: usize| #[trigger] right.indices().contains(i) implies s.indices().contains(i) by {}
            lemma_matches_frame(n1, n2, *left);
            lemma_matches_frame(n1, n2, *right);
        },
    }
}

/// Basic facts about the indices of a matching shape.
proof fn lemma_indices<R>(n: Seq<TilingNode<R>>, s: Shape<R>)
    requires
        matches(n, s),
    ensures
        s.indices().contains(s.idx()),
        forall|i: usize| #[trigger] s.indices().contains(i) ==> i < n.len(),
        s.indices().finite(),
        s.indices().len() == s.size(),
        s.height() < s.size(),
        s.shallowest().1 <= s.height(),
        s.indices().contains(s.shallowest().0),
        n[s.shallowest().0 as int] is Leaf,
    decreases s,
{
    match s {
        Shape::Leaf { idx, .. } => {
            assert(s.indices() =~= set![idx]);
        },
        Shape::Split { idx, left, right, .. } => {
            lemma_indices(n, *left);
            lemma_indices(n, *right);
            lemma_set_disjoint_lens(left.indices(), right.indices());
            assert(left.indices().union(right.indices()) == left.indices() + right.indices());
        },
    }
}

/// The subtree at an index of a matching shape.
proof fn lemma_sub_at<R>(n: Seq<TilingNode<R>>, s: Shape<R>, i: usize)
    requires
        matches(n, s),
        s.indices().contains(i),
    ensures
        s.sub_at(i).idx() == i,
        matches(n, s.sub_at(i)),
        s.sub_at(i).indices().subset_of(s.indices()),
        forall|x: u64| s.sub_at(i).leaves().contains(x) ==> s.leaves().contains(x),
    decreases s,
{
    match s {
        Shape::Leaf { .. } => {},
        Shape::Split { idx, left, right, .. } => {
            if idx != i {
                if left.indices().contains(i) {
                    lemma_sub_at(n, *left, i);
                    assert forall|x: u64| s.sub_at(i).leaves().contains(x) implies s.leaves().contains(x) by {
                        assert(left.leaves().contains(x));
                        let k = choose|k: int| 0 <= k < left.leaves().len() && left.leaves()[k] == x;
                        assert(s.leaves()[k] == x);
                    }
                } else {
                    lemma_sub_at(n, *right, i);
                    assert forall|x: u64| s.sub_at(i).leaves().contains(x) implies s.leaves().contains(x) by {
                        assert(right.leaves().contains(x));
                        let k = choose|k: int| 0 <= k < right.leaves().len() && right.leaves()[k] == x;
                        assert(s.leaves()[k + left.leaves().len()] == x);
                    }
                }
            }
        },
    }
}

/// Any split slot of the tree pointing at `c` is `c`'s parent in the shape.
proof fn lemma_parent<R>(n: Seq<TilingNode<R>>, s: Shape<R>, p: usize, c: usize)
    requires
        matches(n, s),
        s.indices().contains(p),
        is_parent_of(n[p as int], c),
    ensures
        s.parent_of(c) == Some(p),
        c != s.idx(),
        s.indices().contains(c),
    decreases s,
{
    match s {
        Shape::Leaf { idx, .. } => {},
        Shape::Split { idx, left, right, .. } => {
            lemma_indices(n, *left);
            lemma_indices(n, *right);
            if idx != p {
                if left.indices().contains(p) {
                    lemma_parent(n, *left, p, c);
                    assert(!right.indices().contains(c));
                } else {
                    lemma_parent(n, *right, p, c);
                    assert(!left.indices().contains(c));
                }
            }
        },
    }
}

/// A leaf slot of the tree is a leaf of the shape.
proof fn lemma_leaf_at<R>(n: Seq<TilingNode<R>>, s: Shape<R>, i: usize, surface: u64)
    requires
        matches(n, s),
        s.indices().contains(i),
        n[i as int] == (TilingNode::<R>::Leaf { surface }),
    ensures
        s.sub_at(i) == (Shape::<R>::Leaf { idx: i, surface }),
        s.leaves().contains(surface),
{
    lemma_sub_at(n, s, i);
    assert(s.sub_at(i).leaves()[0] == surface);
}

/// A leaf of the shape sits in a leaf slot of the arena.
proof fn lemma_leaf_witness<R>(n: Seq<TilingNode<R>>, s: Shape<R>, surface: u64) -> (i: usize)
    requires
        matches(n, s),
        s.leaves().contains(surface),
    ensures
        s.indices().contains(i),
        n[i as int] == (TilingNode::<R>::Leaf { surface }),
    decreases s,
{
    match s {
        Shape::Leaf { idx, .. } => {
            assert(s.leaves()[0] == surface);
            idx
        },
        Shape::Split { idx, left, right, .. } => {
            let k = choose|k: int| 0 <= k < s.leaves().len() && s.leaves()[k] == surface;
            if k < left.leaves().len() {
                assert(left.leaves()[k] == surface);
                lemma_leaf_witness(n, *left, surface)
            } else {
                assert(right.leaves()[k - left.leaves().len()] == surface);
                lemma_leaf_witness(n, *right, surface)
            }
        },
    }
}

/// Replacing at an index the shape does not use changes nothing.
proof fn lemma_replace_absent<R>(s: Shape<R>, i: usize, new: Shape<R>)
    requires
        !s.indices().contains(i),
    ensures
        s.replace(i, new) == s,
    decreases s,
{
    match s {
        Shape::Leaf { idx, .. } => {
            assert(s.indices().contains(idx));
        },
        Shape::Split { idx, left, right, .. } => {
            assert(s.indices().contains(idx));
            lemma_replace_absent(*left, i, new);
            lemma_replace_absent(*right, i, new);
        },
    }
}

/// Replacing a subtree keeps the arena and the shape in agreement.
proof fn lemma_replace<R>(
    n1: Seq<TilingNode<R>>,
    n2: Seq<TilingNode<R>>,
    s: Shape<R>,
    t: usize,
    new: Shape<R>,
)
    requires
        matches(n1, s),
        s.indices().contains(t),
        new.idx() == t,
        matches(n2, new),
        forall|i: usize| #[trigger]
            s.indices().contains(i) && !s.sub_at(t).indices().contains(i) ==> i < n2.len()
                && n2[i as int] == n1[i as int] && !new.indices().contains(i),
    ensures
        matches(n2, s.replace(t, new)),
        s.replace(t, new).idx() == s.idx(),
        s.replace(t, new).indices() == s.indices().difference(s.sub_at(t).indices()).union(
            new.indices(),
        ),
    decreases s,
{
    lemma_sub_at(n1, s, t);
    match s {
        Shape::Leaf { idx, .. } => {
            assert(set![idx].contains(t));
            assert(idx == t);
            assert(s.idx() == t);
            assert(s.replace(t, new) == new);
            assert(s.indices().difference(s.sub_at(t).indices()).union(new.indices()) =~= new.indices());
        },
        Shape::Split { idx, dir, ratio, left, right } => {
            if idx == t {
                assert(s.indices().difference(s.sub_at(t).indices()).union(new.indices()) =~= new.indices());
            } else {
                lemma_indices(n1, *left);
                lemma_indices(n1, *right);
                if left.indices().contains(t) {
                    lemma_sub_at(n1, *left, t);
                    lemma_replace_absent(*right, t, new);
                    assert forall|i: usize| #[trigger]
                        left.indices().contains(i) && !left.sub_at(t).indices().contains(i) implies i < n2.len()
                            && n2[i as int] == n1[i as int] && !new.indices().contains(i) by {
                        assert(s.indices().contains(i));
                    }
                    lemma_replace(n1, n2, *left, t, new);
                    assert forall|i: usize| #[trigger] right.indices().contains(i) implies i < n2.len()
                        && n2[i as int] == n1[i as int] by {
                        assert(s.indices().contains(i));
                        assert(!left.sub_at(t).indices().contains(i));
                    }
                    lemma_matches_frame(n1, n2, *right);
                    assert forall|a: usize| left.replace(t, new).indices().contains(a) implies !right.indices().contains(a) by {
                        if right.indices().contains(a) {
                            assert(s.indices().contains(a));
                            assert(!left.sub_at(t).indices().contains(a));
                        }
                    }
                    assert(s.indices().contains(idx));
                    assert(!s.sub_at(t).indices().contains(idx));
                    assert(s.replace(t, new).indices() =~= s.indices().difference(
                        s.sub_at(t).indices(),
                    ).union(new.indices()));
                } else {
                    lemma_sub_at(n1, *right, t);
                    lemma_replace_absent(*left, t, new);
                    assert forall|i: usize| #[trigger]
                        right.indices().contains(i) && !right.sub_at(t).indices().contains(i) implies i < n2.len()
                            && n2[i as int] == n1[i as int] && !new.indices().contains(i) by {
                        assert(s.indices().contains(i));
                    }
                    lemma_replace(n1, n2, *right, t, new);
                    assert forall|i: usize| #[trigger] left.indices().contains(i) implies i < n2.len()
                        && n2[i as int] == n1[i as int] by {
                        assert(s.indices().contains(i));
                        assert(!right.sub_at(t).indices().contains(i));
                    }
                    lemma_matches_frame(n1, n2, *left);
                    assert forall|a: usize| right.replace(t, new).indices().contains(a) implies !left.indices().contains(a) by {
                        if left.indices().contains(a) {
                            assert(s.indices().contains(a));
                            assert(!right.sub_at(t).indices().contains(a));
                        }
                    }
                    assert(s.indices().contains(idx));
                    assert(!s.sub_at(t).indices().contains(idx));
                    assert(s.replace(t, new).indices() =~= s.indices().difference(
                        s.sub_at(t).indices(),
                    ).union(new.indices()));
                }
            }
        },
    }
}

/// Every non-root node of a matching shape has a parent slot in the arena.
proof fn lemma_parent_exists<R>(n: Seq<TilingNode<R>>, s: Shape<R>, c: usize) -> (p: usize)
    requires
        matches(n, s),
        s.indices().contains(c),
        c != s.idx(),
    ensures
        s.indices().contains(p),
        is_parent_of(n[p as int], c),
    decreases s,
{
    match s {
        Shape::Leaf { idx, .. } => {
            assert(set![idx].contains(c));
            idx
        },
        Shape::Split { idx, left, right, .. } => {
            lemma_indices(n, *left);
            lemma_indices(n, *right);
            if left.idx() == c || right.idx() == c {
                idx
            } else if left.indices().contains(c) {
                lemma_parent_exists(n, *left, c)
            } else {
                lemma_parent_exists(n, *right, c)
            }
        },
    }
}

/// Leaf slots among the first `k` slots.
pub open spec fn leaf_slots<R>(nodes: Seq<TilingNode<R>>, k: int) -> Set<int> {
    Set::new(|i: int| 0 <= i < k && nodes[i] is Leaf)
}

proof fn lemma_count_prefix<R>(nodes: Seq<TilingNode<R>>, k: int)
    requires
        0 <= k <= nodes.len(),
    ensures
        leaf_slots(nodes, k).finite(),
        count_leaves(nodes.subrange(0, k)) == leaf_slots(nodes, k).len(),
    decreases k,
{
    if k == 0 {
        assert(leaf_slots(nodes, k) =~= Set::empty());
    } else {
        lemma_count_prefix(nodes, k - 1);
        assert(nodes.subrange(0, k).drop_last() =~= nodes.subrange(0, k - 1));
        if nodes[k - 1] is Leaf {
            assert(leaf_slots(nodes, k) =~= leaf_slots(nodes, k - 1).insert(k - 1));
        } else {
            assert(leaf_slots(nodes, k) =~= leaf_slots(nodes, k - 1));
        }
    }
}

/// The leaf set of a matching shape: its members are exactly its leaf slots.
proof fn lemma_leaf_set<R>(n: Seq<TilingNode<R>>, s: Shape<R>)
    requires
        matches(n, s),
    ensures
        s.leaf_set().finite(),
        s.leaf_set().len() == s.leaves().len(),
        s.leaf_set().subset_of(s.indices()),
        forall|i: usize| s.indices().contains(i) ==> (s.leaf_set().contains(i) <==> #[trigger] n[i as int] is Leaf),
    decreases s,
{
    match s {
        Shape::Leaf { idx, .. } => {
            assert(s.leaf_set() =~= set![idx]);
            assert forall|i: usize| s.indices().contains(i) implies (s.leaf_set().contains(i) <==> #[trigger] n[i as int] is Leaf) by {
                assert(set![idx].contains(i));
            }
        },
        Shape::Split { idx, left, right, .. } => {
            lemma_leaf_set(n, *left);
            lemma_leaf_set(n, *right);
            lemma_set_disjoint_lens(left.leaf_set(), right.leaf_set());
            assert(left.leaf_set().union(right.leaf_set()) == left.leaf_set() + right.leaf_set());
            assert(left.leaf_set().disjoint(right.leaf_set()));
        },
    }
}

/// Widening a finite set of indices to `int` keeps its size.
proof fn lemma_map_len_injective(a: Set<usize>)
    requires
        a.finite(),
    ensures
        a.map(|i: usize| i as int).finite(),
        a.map(|i: usize| i as int).len() == a.len(),
    decreases a.len(),
{
    let f = |i: usize| i as int;
    if a.len() == 0 {
        assert(a =~= Set::empty());
        assert(a.map(f) =~= Set::empty());
    } else {
        let x = a.choose();
        lemma_map_len_injective(a.remove(x));
        assert(a.map(f) =~= a.remove(x).map(f).insert(x as int));
        assert(!a.remove(x).map(f).contains(x as int));
    }
}

/// The leaf an insertion splits: the first leaf slot holding `near`, else the
/// leftmost shallowest leaf.
pub open spec fn insert_target<R>(nodes: Seq<TilingNode<R>>, s: Shape<R>, near: Option<u64>) -> usize {
    match near {
        Some(n) => match first_leaf(nodes, n) {
            Some(i) => i as usize,
            None => s.shallowest().0,
        },
        None => s.shallowest().0,
    }
}

/// Direction of the split created at `t`: opposite of its parent's, or
/// horizontal at the root.
pub open spec fn insert_dir<R>(s: Shape<R>, t: usize) -> SplitDirection {
    match s.parent_of(t) {
        Some(p) => match s.sub_at(p) {
            Shape::Split { dir, .. } => dir.spec_opposite(),
            _ => SplitDirection::Horizontal,
        },
        None => SplitDirection::Horizontal,
    }
}

/// Window id of a leaf (0 for a split).
pub open spec fn leaf_surface<R>(s: Shape<R>) -> u64 {
    match s {
        Shape::Leaf { surface, .. } => surface,
        _ => 0,
    }
}

/// The tree after inserting `surface` at `t`, arena indices dropped.
pub open spec fn inserted<R>(s: Shape<R>, t: usize, surface: u64, dir: SplitDirection, half: R) -> Tree<R> {
    s.replace(
        t,
        Shape::Split {
            idx: t,
            dir,
            ratio: half,
            left: Box::new(Shape::Leaf { idx: t, surface: leaf_surface(s.sub_at(t)) }),
            right: Box::new(Shape::Leaf { idx: t, surface }),
        },
    ).erase()
}

/// The shape after splitting the leaf at arena index `t`: that leaf moves to
/// slot `m` as the left/top child and `surface` takes slot `nl` as the
/// right/bottom one, under a split of `dir` kept at `t`.
pub open spec fn split_leaf_shape<R>(
    s: Shape<R>,
    t: usize,
    m: usize,
    nl: usize,
    surface: u64,
    dir: SplitDirection,
    half: R,
) -> Shape<R> {
    s.replace(
        t,
        Shape::Split {
            idx: t,
            dir,
            ratio: half,
            left: Box::new(Shape::Leaf { idx: m, surface: leaf_surface(s.sub_at(t)) }),
            right: Box::new(Shape::Leaf { idx: nl, surface }),
        },
    )
}

/// The arena after storing `x` in its first free slot (at the end when none
/// is free), and the slot used.
pub open spec fn alloc_in<R>(nodes: Seq<TilingNode<R>>, x: TilingNode<R>) -> (Seq<TilingNode<R>>, usize) {
    match first_empty(nodes) {
        Some(e) => (nodes.update(e, x), e as usize),
        None => (nodes.push(x), nodes.len() as usize),
    }
}

/// The slots a split of a leaf holding `ts` for `surface` takes: the new leaf
/// is stored first, the old leaf next; the result is (old leaf, new leaf).
pub open spec fn split_slots<R>(nodes: Seq<TilingNode<R>>, ts: u64, surface: u64) -> (usize, usize) {
    let a1 = alloc_in(nodes, TilingNode::<R>::Leaf { surface });
    let a2 = alloc_in(a1.0, TilingNode::<R>::Leaf { surface: ts });
    (a2.1, a1.1)
}

/// The arena after that split of the leaf at slot `t`: both leaves stored as
/// `split_slots` says, and slot `t` turned into the split over them.
pub open spec fn split_arena<R>(
    nodes: Seq<TilingNode<R>>,
    t: usize,
    ts: u64,
    surface: u64,
    dir: SplitDirection,
    half: R,
) -> Seq<TilingNode<R>> {
    let a1 = alloc_in(nodes, TilingNode::<R>::Leaf { surface });
    let a2 = alloc_in(a1.0, TilingNode::<R>::Leaf { surface: ts });
    a2.0.update(t as int, TilingNode::<R>::Split { dir, ratio: half, left: a2.1, right: a1.1 })
}

/// Replacing by subtrees that erase equally gives trees that erase equally.
proof fn lemma_replace_erase<R>(s: Shape<R>, t: usize, x: Shape<R>, y: Shape<R>)
    requires
        x.erase() == y.erase(),
    ensures
        s.replace(t, x).erase() == s.replace(t, y).erase(),
    decreases s,
{
    match s {
        Shape::Leaf { .. } => {},
        Shape::Split { left, right, .. } => {
            lemma_replace_erase(*left, t, x, y);
            lemma_replace_erase(*right, t, x, y);
        },
    }
}

/// Facts about the parent of a non-root node.
proof fn lemma_parent_facts<R>(n: Seq<TilingNode<R>>, s: Shape<R>, c: usize)
    requires
        matches(n, s),
        s.indices().contains(c),
        s.parent_of(c) is Some,
    ensures
        s.indices().contains(s.parent_of(c)->0),
        s.sub_at(s.parent_of(c)->0) is Split,
        is_parent_of(n[s.parent_of(c)->0 as int], c),
    decreases s,
{
    lemma_indices(n, s);
    match s {
        Shape::Leaf { .. } => {},
        Shape::Split { idx, left, right, .. } => {
            lemma_indices(n, *left);
            lemma_indices(n, *right);
            if left.idx() == c || right.idx() == c {
            } else if left.indices().contains(c) {
                lemma_parent_facts(n, *left, c);
                lemma_sub_at(n, *left, left.parent_of(c)->0);
            } else {
                lemma_parent_facts(n, *right, c);
                lemma_sub_at(n, *right, right.parent_of(c)->0);
            }
        },
    }
}

/// Two successive allocations take two distinct slots that were free.
proof fn lemma_two_allocs<R>(
    old_nodes: Seq<TilingNode<R>>,
    nodes1: Seq<TilingNode<R>>,
    nodes2: Seq<TilingNode<R>>,
    x: TilingNode<R>,
    y: TilingNode<R>,
    a: usize,
    b: usize,
)
    requires
        !(x is Empty),
        match first_empty(old_nodes) {
            Some(e) => a == e && nodes1 == old_nodes.update(e, x),
            None => a == old_nodes.len() && nodes1 == old_nodes.push(x),
        },
        match first_empty(nodes1) {
            Some(e) => b == e && nodes2 == nodes1.update(e, y),
            None => b == nodes1.len() && nodes2 == nodes1.push(y),
        },
    ensures
        a != b,
        a < nodes2.len(),
        b < nodes2.len(),
        a < old_nodes.len() ==> old_nodes[a as int] is Empty,
        b < old_nodes.len() ==> old_nodes[b as int] is Empty,
        nodes2.len() <= old_nodes.len() + 2,
        nodes2[a as int] == x,
        nodes2[b as int] == y,
        forall|i: int|
            0 <= i < nodes2.len() && i != a && i != b ==> i < old_nodes.len() && #[trigger] nodes2[i]
                == old_nodes[i],
{
    let pe = |n: TilingNode<R>| n is Empty;
    lemma_first_where_facts(old_nodes, pe);
    lemma_first_where_facts(nodes1, pe);
    assert(nodes1[a as int] == x);
    if b < nodes1.len() {
        assert(nodes1[b as int] is Empty);
    }
}

/// The arena after an insertion agrees with the shape after it.
proof fn lemma_insert_split<R>(
    old_nodes: Seq<TilingNode<R>>,
    n3: Seq<TilingNode<R>>,
    s: Shape<R>,
    target: usize,
    ts: u64,
    moved: usize,
    new_leaf: usize,
    surface: u64,
    dir: SplitDirection,
    half: R,
)
    requires
        matches(old_nodes, s),
        s.indices().contains(target),
        old_nodes[target as int] == (TilingNode::<R>::Leaf { surface: ts }),
        forall|i: int|
            0 <= i < old_nodes.len() ==> (#[trigger] old_nodes[i] is Empty <==> !s.indices().contains(
                i as usize,
            )),
        moved != new_leaf,
        target < old_nodes.len(),
        old_nodes.len() <= n3.len(),
        n3.len() <= usize::MAX,
        moved < n3.len(),
        new_leaf < n3.len(),
        moved < old_nodes.len() ==> old_nodes[moved as int] is Empty,
        new_leaf < old_nodes.len() ==> old_nodes[new_leaf as int] is Empty,
        n3[moved as int] == (TilingNode::<R>::Leaf { surface: ts }),
        n3[new_leaf as int] == (TilingNode::<R>::Leaf { surface }),
        n3[target as int] == (TilingNode::<R>::Split { dir, ratio: half, left: moved, right: new_leaf }),
        forall|i: int|
            0 <= i < n3.len() && i != moved && i != new_leaf && i != target ==> i < old_nodes.len()
                && #[trigger] n3[i] == old_nodes[i],
    ensures
        ({
            let newsub = Shape::Split {
                idx: target,
                dir,
                ratio: half,
                left: Box::new(Shape::Leaf { idx: moved, surface: ts }),
                right: Box::new(Shape::Leaf { idx: new_leaf, surface }),
            };
            let s2 = s.replace(target, newsub);
            &&& matches(n3, s2)
            &&& s2.idx() == s.idx()
            &&& forall|i: int|
                0 <= i < n3.len() ==> (#[trigger] n3[i] is Empty <==> !s2.indices().contains(i as usize))
            &&& s2.erase() == inserted(s, target, surface, dir, half)
        }),
{
    lemma_indices(old_nodes, s);
    lemma_leaf_at(old_nodes, s, target, ts);
    assert(!s.indices().contains(new_leaf)) by {
        if new_leaf < old_nodes.len() {
            assert(old_nodes[new_leaf as int] is Empty);
        }
    }
    assert(!s.indices().contains(moved)) by {
        if moved < old_nodes.len() {
            assert(old_nodes[moved as int] is Empty);
        }
    }
    assert(moved != target);
    assert(new_leaf != target);
    let lf = Shape::Leaf { idx: moved, surface: ts };
    let rt = Shape::Leaf { idx: new_leaf, surface };
    let newsub = Shape::Split { idx: target, dir, ratio: half, left: Box::new(lf), right: Box::new(rt) };
    assert(matches(n3, lf));
    assert(matches(n3, rt));
    assert(lf.indices() =~= set![moved]);
    assert(rt.indices() =~= set![new_leaf]);
    assert(matches(n3, newsub));
    assert(newsub.indices() =~= set![target, moved, new_leaf]);
    assert(s.sub_at(target).indices() =~= set![target]);
    assert forall|i: usize| #[trigger]
        s.indices().contains(i) && !s.sub_at(target).indices().contains(i) implies i < n3.len()
            && n3[i as int] == old_nodes[i as int] && !newsub.indices().contains(i) by {
        assert(i != target);
        assert(i != moved);
        assert(i != new_leaf);
        assert(i < old_nodes.len());
        assert(n3[i as int] == old_nodes[i as int]);
    }
    lemma_replace(old_nodes, n3, s, target, newsub);
    let s2 = s.replace(target, newsub);
    assert(s2.indices() =~= s.indices().insert(moved).insert(new_leaf));
    assert forall|i: int| 0 <= i < n3.len() implies (#[trigger] n3[i] is Empty <==> !s2.indices().contains(
        i as usize,
    )) by {
        if i != target as int && i != moved as int && i != new_leaf as int {
            assert(n3[i] == old_nodes[i]);
            assert(i as usize != moved && i as usize != new_leaf);
            if old_nodes[i] is Empty {
                assert(!s.indices().contains(i as usize));
            } else {
                assert(s.indices().contains(i as usize));
            }
        } else {
            assert(!(n3[i] is Empty));
            assert(s2.indices().contains(i as usize));
        }
    }
    let dummy = Shape::Split {
        idx: target,
        dir,
        ratio: half,
        left: Box::new(Shape::Leaf { idx: target, surface: leaf_surface(s.sub_at(target)) }),
        right: Box::new(Shape::Leaf { idx: target, surface }),
    };
    assert(leaf_surface(s.sub_at(target)) == ts);
    assert(lf.erase() == (Tree::<R>::Leaf { surface: ts }));
    assert(rt.erase() == (Tree::<R>::Leaf { surface }));
    assert(dummy->left.erase() == (Tree::<R>::Leaf { surface: ts }));
    assert(dummy->right.erase() == (Tree::<R>::Leaf { surface }));
    assert(newsub.erase() == dummy.erase());
    lemma_replace_erase(s, target, newsub, dummy);
}

/// The child of split `p` that is not `c`.
pub open spec fn sibling_of<R>(p: Shape<R>, c: usize) -> Shape<R> {
    match p {
        Shape::Split { left, right, .. } => if left.idx() == c {
            *right
        } else {
            *left
        },
        _ => p,
    }
}

/// The tree after dropping the leaf at arena index `t`: its parent split is
/// replaced by `t`'s sibling subtree. Arena indices dropped.
pub open spec fn removed<R>(s: Shape<R>, t: usize) -> Tree<R> {
    let p = s.parent_of(t)->0;
    s.replace(p, sibling_of(s.sub_at(p), t)).erase()
}

/// The shape after dropping the non-root leaf at arena index `t`: its
/// sibling subtree moves up into the parent split's slot.
pub open spec fn removed_shape<R>(s: Shape<R>, t: usize) -> Shape<R> {
    let p = s.parent_of(t)->0;
    s.replace(p, sibling_of(s.sub_at(p), t).with_idx(p))
}

/// The arena after that: the parent's slot takes the sibling's node, and
/// the sibling's and the leaf's slots are freed.
pub open spec fn removed_arena<R>(n: Seq<TilingNode<R>>, s: Shape<R>, t: usize) -> Seq<TilingNode<R>> {
    let p = s.parent_of(t)->0;
    let si = sibling_of(s.sub_at(p), t).idx();
    n.update(p as int, n[si as int]).update(si as int, TilingNode::<R>::Empty).update(t as int, TilingNode::<R>::Empty)
}

/// Moving a subtree's root node to another free slot keeps it matching.
proof fn lemma_matches_reindex<R>(n1: Seq<TilingNode<R>>, n2: Seq<TilingNode<R>>, sib: Shape<R>, p: usize)
    requires
        matches(n1, sib),
        p < n2.len(),
        n2[p as int] == n1[sib.idx() as int],
        !sib.indices().contains(p),
        forall|i: usize| #[trigger]
            sib.indices().contains(i) && i != sib.idx() ==> i < n2.len() && n2[i as int] == n1[i as int],
    ensures
        matches(n2, sib.with_idx(p)),
        sib.with_idx(p).idx() == p,
        sib.with_idx(p).indices() == sib.indices().remove(sib.idx()).insert(p),
        sib.with_idx(p).erase() == sib.erase(),
{
    match sib {
        Shape::Leaf { idx, .. } => {
            assert(sib.with_idx(p).indices() =~= sib.indices().remove(sib.idx()).insert(p));
        },
        Shape::Split { idx, left, right, .. } => {
            assert forall|i: usize| #[trigger] left.indices().contains(i) implies i < n2.len() && n2[i as int] == n1[i as int] by {
                assert(sib.indices().contains(i));
            }
            assert forall|i: usize| #[trigger] right.indices().contains(i) implies i < n2.len() && n2[i as int] == n1[i as int] by {
                assert(sib.indices().contains(i));
            }
            lemma_matches_frame(n1, n2, *left);
            lemma_matches_frame(n1, n2, *right);
            assert(sib.with_idx(p).indices() =~= sib.indices().remove(sib.idx()).insert(p));
        },
    }
}

/// The arena after a removal agrees with the shape after it.
proof fn lemma_remove<R>(n1: Seq<TilingNode<R>>, n2: Seq<TilingNode<R>>, s: Shape<R>, t: usize, p: usize)
    requires
        matches(n1, s),
        n1.len() <= usize::MAX,
        forall|i: int|
            0 <= i < n1.len() ==> (#[trigger] n1[i] is Empty <==> !s.indices().contains(i as usize)),
        s.indices().contains(t),
        n1[t as int] is Leaf,
        s.parent_of(t) == Some(p),
        s.sub_at(p) is Split,
        n2.len() == n1.len(),
        n2[p as int] == n1[sibling_of(s.sub_at(p), t).idx() as int],
        n2[sibling_of(s.sub_at(p), t).idx() as int] is Empty,
        n2[t as int] is Empty,
        forall|i: int|
            0 <= i < n1.len() && i != p && i != t && i != sibling_of(s.sub_at(p), t).idx() ==> #[trigger] n2[i]
                == n1[i],
    ensures
        ({
            let sib = sibling_of(s.sub_at(p), t);
            let s2 = s.replace(p, sib.with_idx(p));
            &&& matches(n2, s2)
            &&& s2.idx() == s.idx()
            &&& forall|i: int|
                0 <= i < n2.len() ==> (#[trigger] n2[i] is Empty <==> !s2.indices().contains(i as usize))
            &&& s2.erase() == removed(s, t)
        }),
{
    lemma_indices(n1, s);
    lemma_parent_facts(n1, s, t);
    let sp = s.sub_at(p);
    lemma_sub_at(n1, s, p);
    lemma_sub_at(n1, s, t);
    let sib = sibling_of(sp, t);
    let l = *sp->left;
    let r = *sp->right;
    lemma_indices(n1, l);
    lemma_indices(n1, r);
    assert(l.idx() == t || r.idx() == t);
    assert(matches(n1, l) && matches(n1, r));
    let tc = if l.idx() == t { l } else { r };
    assert(tc.idx() == t);
    assert(matches(n1, tc));
    assert(tc is Leaf) by {
        if tc is Split {
            assert(n1[t as int] is Split);
        }
    }
    assert(tc.indices() =~= set![t]);
    assert(sib == if l.idx() == t { r } else { l });
    lemma_indices(n1, sib);
    let si = sib.idx();
    assert(sp.indices() =~= sib.indices().union(set![t]).insert(p));
    assert(si != t && si != p && t != p);
    assert(!sib.indices().contains(p));
    assert(!sib.indices().contains(t));
    assert forall|i: usize| #[trigger] sib.indices().contains(i) && i != sib.idx() implies i < n2.len()
        && n2[i as int] == n1[i as int] by {
        assert(s.indices().contains(i));
    }
    lemma_matches_reindex(n1, n2, sib, p);
    let sib2 = sib.with_idx(p);
    assert forall|i: usize| #[trigger]
        s.indices().contains(i) && !s.sub_at(p).indices().contains(i) implies i < n2.len()
            && n2[i as int] == n1[i as int] && !sib2.indices().contains(i) by {
        assert(i != p && i != t && i != si);
    }
    lemma_replace(n1, n2, s, p, sib2);
    let s2 = s.replace(p, sib2);
    assert(s2.indices() =~= s.indices().remove(t).remove(si));
    assert forall|i: int| 0 <= i < n2.len() implies (#[trigger] n2[i] is Empty <==> !s2.indices().contains(
        i as usize,
    )) by {
        if i != p as int && i != t as int && i != si as int {
            assert(n2[i] == n1[i]);
            assert(i as usize != p && i as usize != t && i as usize != si);
        } else if i == p as int {
            assert(s.indices().contains(si));
            assert(!(n1[si as int] is Empty));
            assert(s2.indices().contains(p));
        }
    }
    lemma_replace_erase(s, p, sib2, sib);
}

/// Whether every node of `s` stored at arena index `i` (outside subtrees
/// already rooted there) is the leaf holding `x`.
pub open spec fn leaf_at_every<R>(s: Shape<R>, i: usize, x: u64) -> bool
    decreases s,
{
    if s.idx() == i {
        s == (Shape::<R>::Leaf { idx: i, surface: x })
    } else {
        match s {
            Shape::Leaf { .. } => true,
            Shape::Split { left, right, .. } => leaf_at_every(*left, i, x) && leaf_at_every(*right, i, x),
        }
    }
}

/// A leaf slot of the arena is that leaf wherever the shape uses its index.
proof fn lemma_leaf_at_every<R>(n: Seq<TilingNode<R>>, s: Shape<R>, i: usize, x: u64)
    requires
        matches(n, s),
        i < n.len(),
        n[i as int] == (TilingNode::<R>::Leaf { surface: x }),
    ensures
        leaf_at_every(s, i, x),
    decreases s,
{
    match s {
        Shape::Leaf { .. } => {},
        Shape::Split { left, right, .. } => {
            lemma_leaf_at_every(n, *left, i, x);
            lemma_leaf_at_every(n, *right, i, x);
        },
    }
}

/// After two leaf slots holding windows that occur once each trade windows,
/// each window's first leaf slot is the other's old one.
proof fn lemma_first_leaf_after_trade<R>(n: Seq<TilingNode<R>>, s: Shape<R>, ia: usize, ib: usize, a: u64, b: u64)
    requires
        matches(n, s),
        s.leaves().to_multiset().count(a) <= 1,
        s.leaves().to_multiset().count(b) <= 1,
        s.indices().contains(ia),
        s.indices().contains(ib),
        ia != ib,
        a != b,
        n[ia as int] == (TilingNode::<R>::Leaf { surface: a }),
        n[ib as int] == (TilingNode::<R>::Leaf { surface: b }),
        forall|j: int| 0 <= j < n.len() ==> (#[trigger] n[j] is Empty <==> !s.indices().contains(j as usize)),
    ensures
        ({
            let n1 = n.update(ia as int, TilingNode::<R>::Leaf { surface: b }).update(
                ib as int,
                TilingNode::<R>::Leaf { surface: a },
            );
            first_leaf(n1, a) == Some(ib as int) && first_leaf(n1, b) == Some(ia as int)
        }),
{
    lemma_indices(n, s);
    let n1 = n.update(ia as int, TilingNode::<R>::Leaf { surface: b }).update(
        ib as int,
        TilingNode::<R>::Leaf { surface: a },
    );
    let pa = |m: TilingNode<R>| is_leaf_of(m, a);
    let pb = |m: TilingNode<R>| is_leaf_of(m, b);
    lemma_first_where_facts(n1, pa);
    lemma_first_where_facts(n1, pb);
    assert(pa(n1[ib as int]) && pb(n1[ia as int]));
    let ka = first_where(n1, pa)->0;
    let kb = first_where(n1, pb)->0;
    if ka != ib as int {
        assert(ka != ia as int);
        assert(n1[ka] == n[ka]);
        assert(!(n[ka] is Empty));
        lemma_two_slots_count(n, s, ia, ka as usize, a);
    }
    if kb != ia as int {
        assert(kb != ib as int);
        assert(n1[kb] == n[kb]);
        assert(!(n[kb] is Empty));
        lemma_two_slots_count(n, s, ib, kb as usize, b);
    }
}

/// Two leaf slots of the tree holding one window put it among the leaves at
/// least twice.
proof fn lemma_two_slots_count<R>(n: Seq<TilingNode<R>>, s: Shape<R>, i: usize, j: usize, x: u64)
    requires
        matches(n, s),
        s.indices().contains(i),
        s.indices().contains(j),
        i != j,
        n[i as int] == (TilingNode::<R>::Leaf { surface: x }),
        n[j as int] == (TilingNode::<R>::Leaf { surface: x }),
    ensures
        s.leaves().to_multiset().count(x) >= 2,
    decreases s,
{
    broadcast use vstd::multiset::group_multiset_axioms;
    broadcast use vstd::seq_lib::group_to_multiset_ensures;

    match s {
        Shape::Leaf { idx, .. } => {
            assert(s.indices() =~= set![idx]);
        },
        Shape::Split { idx, left, right, .. } => {
            let ll = left.leaves();
            let rl = right.leaves();
            lemma_multiset_commutative(ll, rl);
            assert(s.leaves() == ll + rl);
            if left.indices().contains(i) && left.indices().contains(j) {
                lemma_two_slots_count(n, *left, i, j, x);
            } else if right.indices().contains(i) && right.indices().contains(j) {
                lemma_two_slots_count(n, *right, i, j, x);
            } else {
                let li = if left.indices().contains(i) { i } else { j };
                let ri = if left.indices().contains(i) { j } else { i };
                lemma_leaf_at(n, *left, li, x);
                lemma_leaf_at(n, *right, ri, x);
                assert(ll.to_multiset().count(x) > 0);
                assert(rl.to_multiset().count(x) > 0);
            }
        },
    }
}

/// The one arena slot holding a window that occurs once among the leaves
/// is its first leaf slot.
proof fn lemma_first_leaf_once<R>(n: Seq<TilingNode<R>>, s: Shape<R>, i: usize, x: u64)
    requires
        matches(n, s),
        s.leaves().to_multiset().count(x) <= 1,
        s.indices().contains(i),
        n[i as int] == (TilingNode::<R>::Leaf { surface: x }),
        forall|j: int| 0 <= j < n.len() ==> (#[trigger] n[j] is Empty <==> !s.indices().contains(j as usize)),
    ensures
        first_leaf(n, x) == Some(i as int),
{
    let p = |m: TilingNode<R>| is_leaf_of(m, x);
    lemma_first_where_facts(n, p);
    lemma_indices(n, s);
    assert(p(n[i as int]));
    let k = first_where(n, p)->0;
    if k != i as int {
        assert(!(n[k] is Empty));
        lemma_two_slots_count(n, s, i, k as usize, x);
    }
}

/// Laying out depends only on the tree without its arena indices.
proof fn lemma_layout_erase<R, F: Fn(i32, R) -> i32>(x: Shape<R>, y: Shape<R>, area: Rect, f: F, gap: i32)
    requires
        x.erase() == y.erase(),
    ensures
        layout_of(x, area, f, gap) == layout_of(y, area, f, gap),
    decreases x,
{
    match x {
        Shape::Leaf { .. } => {
            match y {
                Shape::Leaf { .. } => {},
                Shape::Split { .. } => {},
            }
        },
        Shape::Split { dir, ratio, left, right, .. } => {
            match y {
                Shape::Leaf { .. } => {},
                Shape::Split { left: yl, right: yr, .. } => {
                    let first = scaled(f, split_len(area, dir), ratio);
                    assert(left.erase() == yl.erase());
                    assert(right.erase() == yr.erase());
                    lemma_layout_erase(*left, *yl, split_first(area, dir, first, gap), f, gap);
                    lemma_layout_erase(*right, *yr, split_second(area, dir, first, gap), f, gap);
                },
            }
        },
    }
}

/// Replacing at `t` twice, the first time by a node kept at `t`, is the same
/// as replacing once by the second.
proof fn lemma_replace_twice<R>(s: Shape<R>, t: usize, x: Shape<R>, y: Shape<R>)
    requires
        x.idx() == t,
    ensures
        s.replace(t, x).replace(t, y) == s.replace(t, y),
    decreases s,
{
    match s {
        Shape::Leaf { .. } => {},
        Shape::Split { left, right, .. } => {
            lemma_replace_twice(*left, t, x, y);
            lemma_replace_twice(*right, t, x, y);
        },
    }
}

/// Putting back the leaf that is everywhere at `t` changes nothing.
proof fn lemma_replace_same_leaf<R>(s: Shape<R>, t: usize, x: u64)
    requires
        leaf_at_every(s, t, x),
    ensures
        s.replace(t, Shape::Leaf { idx: t, surface: x }) == s,
    decreases s,
{
    match s {
        Shape::Leaf { .. } => {},
        Shape::Split { left, right, .. } => {
            if s.idx() != t {
                lemma_replace_same_leaf(*left, t, x);
                lemma_replace_same_leaf(*right, t, x);
            }
        },
    }
}

/// A replacement at an index the shape uses puts the new subtree's indices in.
proof fn lemma_replace_contains<R>(s: Shape<R>, t: usize, new: Shape<R>)
    requires
        s.indices().contains(t),
    ensures
        forall|i: usize| #[trigger] new.indices().contains(i) ==> s.replace(t, new).indices().contains(i),
    decreases s,
{
    match s {
        Shape::Leaf { .. } => {},
        Shape::Split { idx, left, right, .. } => {
            if idx != t {
                if left.indices().contains(t) {
                    lemma_replace_contains(*left, t, new);
                } else {
                    lemma_replace_contains(*right, t, new);
                }
            }
        },
    }
}

/// An arena agreeing with a replaced shape agrees with the new subtree.
proof fn lemma_matches_replaced<R>(n: Seq<TilingNode<R>>, s: Shape<R>, t: usize, new: Shape<R>)
    requires
        matches(n, s.replace(t, new)),
        s.indices().contains(t),
    ensures
        matches(n, new),
    decreases s,
{
    match s {
        Shape::Leaf { .. } => {},
        Shape::Split { idx, left, right, .. } => {
            if idx != t {
                if left.indices().contains(t) {
                    lemma_matches_replaced(n, *left, t, new);
                } else {
                    lemma_matches_replaced(n, *right, t, new);
                }
            }
        },
    }
}

/// After a replacement at `t` by a node kept at `t`, the subtree at `t` is
/// the new one.
proof fn lemma_replace_sub_at<R>(s: Shape<R>, t: usize, new: Shape<R>)
    requires
        s.indices().contains(t),
        new.idx() == t,
    ensures
        s.replace(t, new).sub_at(t) == new,
    decreases s,
{
    assert(new.indices().contains(t));
    match s {
        Shape::Leaf { .. } => {},
        Shape::Split { idx, left, right, .. } => {
            if idx != t {
                if left.indices().contains(t) {
                    lemma_replace_sub_at(*left, t, new);
                    lemma_replace_contains(*left, t, new);
                } else {
                    lemma_replace_sub_at(*right, t, new);
                    lemma_replace_absent(*left, t, new);
                }
            }
        },
    }
}

/// Relabelling two leaves and then relabelling them back restores the tree.
proof fn lemma_set_leaf_back<R>(s: Shape<R>, ia: usize, a: u64, ib: usize, b: u64)
    requires
        leaf_at_every(s, ia, a),
        leaf_at_every(s, ib, b),
        ia != ib,
    ensures
        set_leaf(set_leaf(set_leaf(set_leaf(s, ia, b), ib, a), ib, b), ia, a) == s,
    decreases s,
{
    match s {
        Shape::Leaf { .. } => {},
        Shape::Split { idx, dir, ratio, left, right } => {
            if idx != ia && idx != ib {
                lemma_set_leaf_back(*left, ia, a, ib, b);
                lemma_set_leaf_back(*right, ia, a, ib, b);
                let l4 = set_leaf(set_leaf(set_leaf(set_leaf(*left, ia, b), ib, a), ib, b), ia, a);
                let r4 = set_leaf(set_leaf(set_leaf(set_leaf(*right, ia, b), ib, a), ib, b), ia, a);
                assert(set_leaf(set_leaf(set_leaf(set_leaf(s, ia, b), ib, a), ib, b), ia, a) == Shape::Split {
                    idx,
                    dir,
                    ratio,
                    left: Box::new(l4),
                    right: Box::new(r4),
                });
            }
        },
    }
}

/// The tree with the leaf at arena index `i` holding `x` instead.
pub open spec fn set_leaf<R>(s: Shape<R>, i: usize, x: u64) -> Shape<R> {
    s.replace(i, Shape::Leaf { idx: i, surface: x })
}

/// Relabelling a leaf slot keeps the arena and the shape in agreement.
proof fn lemma_set_leaf<R>(n1: Seq<TilingNode<R>>, n2: Seq<TilingNode<R>>, s: Shape<R>, i: usize, x: u64)
    requires
        matches(n1, s),
        s.indices().contains(i),
        n1[i as int] is Leaf,
        n2 == n1.update(i as int, TilingNode::<R>::Leaf { surface: x }),
    ensures
        matches(n2, set_leaf(s, i, x)),
        set_leaf(s, i, x).idx() == s.idx(),
        set_leaf(s, i, x).indices() == s.indices(),
{
    lemma_indices(n1, s);
    let ts = match n1[i as int] {
        TilingNode::Leaf { surface } => surface,
        _ => 0,
    };
    lemma_leaf_at(n1, s, i, ts);
    let new = Shape::<R>::Leaf { idx: i, surface: x };
    assert(new.indices() =~= set![i]);
    assert(s.sub_at(i).indices() =~= set![i]);
    lemma_replace(n1, n2, s, i, new);
    assert(set_leaf(s, i, x).indices() =~= s.indices());
}

/// The tree with the ratio of the split at arena index `i` set to `r`.
pub open spec fn set_ratio<R>(s: Shape<R>, i: usize, r: R) -> Shape<R> {
    s.replace(i, s.sub_at(i).with_ratio(r))
}

/// Changing a split's ratio keeps the arena and the shape in agreement.
proof fn lemma_set_ratio<R>(n1: Seq<TilingNode<R>>, n2: Seq<TilingNode<R>>, s: Shape<R>, i: usize, r: R)
    requires
        matches(n1, s),
        s.indices().contains(i),
        n1[i as int] is Split,
        n2 == n1.update(
            i as int,
            TilingNode::<R>::Split {
                dir: n1[i as int]->dir,
                ratio: r,
                left: n1[i as int]->left,
                right: n1[i as int]->right,
            },
        ),
    ensures
        matches(n2, set_ratio(s, i, r)),
        set_ratio(s, i, r).idx() == s.idx(),
        set_ratio(s, i, r).indices() == s.indices(),
        set_ratio(s, i, r).leaves() == s.leaves(),
{
    lemma_indices(n1, s);
    lemma_sub_at(n1, s, i);
    let sub = s.sub_at(i);
    assert(sub is Split);
    let new = sub.with_ratio(r);
    let l = *sub->left;
    let rt = *sub->right;
    assert forall|k: usize| #[trigger] l.indices().contains(k) implies k < n2.len() && n2[k as int] == n1[k as int] by {
        assert(sub.indices().contains(k));
        assert(s.indices().contains(k));
    }
    assert forall|k: usize| #[trigger] rt.indices().contains(k) implies k < n2.len() && n2[k as int] == n1[k as int] by {
        assert(sub.indices().contains(k));
        assert(s.indices().contains(k));
    }
    lemma_matches_frame(n1, n2, l);
    lemma_matches_frame(n1, n2, rt);
    assert(matches(n2, new));
    assert(new.indices() == sub.indices());
    lemma_replace(n1, n2, s, i, new);
    assert(set_ratio(s, i, r).indices() =~= s.indices());
    lemma_replace_leaves(n1, s, i, new);
}

/// Replacing a subtree by one with the same leaves keeps the leaves.
proof fn lemma_replace_leaves<R>(n: Seq<TilingNode<R>>, s: Shape<R>, i: usize, new: Shape<R>)
    requires
        matches(n, s),
        new.leaves() == s.sub_at(i).leaves(),
    ensures
        s.replace(i, new).leaves() == s.leaves(),
    decreases s,
{
    match s {
        Shape::Leaf { .. } => {},
        Shape::Split { idx, left, right, .. } => {
            if idx != i {
                if left.indices().contains(i) {
                    assert(!right.indices().contains(i));
                    lemma_replace_leaves(n, *left, i, new);
                    lemma_replace_absent(*right, i, new);
                } else if right.indices().contains(i) {
                    lemma_replace_absent(*left, i, new);
                    lemma_replace_leaves(n, *right, i, new);
                } else {
                    lemma_replace_absent(*left, i, new);
                    lemma_replace_absent(*right, i, new);
                }
            }
        },
    }
}

/// The nearest split above the leaf at arena index `t` whose direction is
/// `want_dir` and whose left/top child holds `surface` exactly when
/// `want_left` is set.
pub open spec fn ancestor_split<R>(s: Shape<R>, t: usize, surface: u64, want_dir: SplitDirection, want_left: bool) -> Option<usize>
    decreases s,
{
    match s {
        Shape::Leaf { .. } => None,
        Shape::Split { idx, dir, left, right, .. } => {
            let here = dir == want_dir && left.leaves().contains(surface) == want_left;
            let below = if left.indices().contains(t) {
                ancestor_split(*left, t, surface, want_dir, want_left)
            } else if right.indices().contains(t) {
                ancestor_split(*right, t, surface, want_dir, want_left)
            } else {
                None
            };
            if !(left.indices().contains(t) || right.indices().contains(t)) {
                None
            } else if below is Some {
                below
            } else if here {
                Some(idx)
            } else {
                None
            }
        },
    }
}

/// Whether the node at arena index `a` is a split above the node at `t`.
pub open spec fn split_above<R>(s: Shape<R>, a: usize, t: usize) -> bool {
    &&& s.indices().contains(a)
    &&& a != t
    &&& s.sub_at(a) is Split
    &&& s.sub_at(a).indices().contains(t)
}

/// The split found for an edge drag is the nearest fitting one. With a
/// split fitting when it runs in `want_dir` and its left/top child holds
/// `surface` exactly when `want_left` is set: the result is a split above
/// `t` that fits, and no split below it and above `t` fits; when there is
/// no result, no split above `t` fits.
pub proof fn lemma_ancestor_is_nearest<R>(s: Shape<R>, t: usize, surface: u64, want_dir: SplitDirection, want_left: bool)
    requires
        distinct_indices(s),
    ensures
        match ancestor_split(s, t, surface, want_dir, want_left) {
            Some(a) => {
                &&& split_above(s, a, t)
                &&& s.sub_at(a)->dir == want_dir
                &&& s.sub_at(a)->left.leaves().contains(surface) == want_left
                &&& forall|b: usize|
                    #![trigger s.sub_at(b)]
                    s.sub_at(a).indices().contains(b) && b != a && split_above(s, b, t) ==> !(s.sub_at(b)->dir
                        == want_dir && s.sub_at(b)->left.leaves().contains(surface) == want_left)
            },
            None => forall|b: usize|
                #![trigger s.sub_at(b)]
                split_above(s, b, t) ==> !(s.sub_at(b)->dir == want_dir && s.sub_at(b)->left.leaves().contains(surface)
                    == want_left),
        },
    decreases s,
{
    match s {
        Shape::Leaf { .. } => {},
        Shape::Split { idx, dir, left, right, .. } => {
            lemma_ancestor_is_nearest(*left, t, surface, want_dir, want_left);
            lemma_ancestor_is_nearest(*right, t, surface, want_dir, want_left);
            assert forall|b: usize| #[trigger] left.indices().contains(b) implies s.sub_at(b) == left.sub_at(b)
                && left.sub_at(b).indices().subset_of(left.indices()) by {
                lemma_sub_at_indices(*left, b);
            }
            assert forall|b: usize| #[trigger] right.indices().contains(b) implies s.sub_at(b) == right.sub_at(b)
                && right.sub_at(b).indices().subset_of(right.indices()) by {
                lemma_sub_at_indices(*right, b);
            }
            assert(s.sub_at(idx) == s);
        },
    }
}

/// An element of a concatenation is an element of one of the parts.
proof fn lemma_seq_concat_contains(a: Seq<u64>, b: Seq<u64>, x: u64)
    ensures
        (a + b).contains(x) <==> a.contains(x) || b.contains(x),
{
    if a.contains(x) {
        let k = choose|k: int| 0 <= k < a.len() && a[k] == x;
        assert((a + b)[k] == x);
    }
    if b.contains(x) {
        let k = choose|k: int| 0 <= k < b.len() && b[k] == x;
        assert((a + b)[k + a.len()] == x);
    }
    if (a + b).contains(x) {
        let k = choose|k: int| 0 <= k < (a + b).len() && (a + b)[k] == x;
        if k < a.len() {
            assert(a[k] == x);
        } else {
            assert(b[k - a.len()] == x);
        }
    }
}

/// What `scale(len, ratio)` returns: the first child's share of `len`.
pub open spec fn scaled<R, F: Fn(i32, R) -> i32>(f: F, len: i32, ratio: R) -> i32 {
    choose|o: i32| call_ensures(f, (len, ratio), o)
}

/// `f` accepts every length and ratio and answers each with one value.
pub open spec fn scale_ok<R, F: Fn(i32, R) -> i32>(f: F) -> bool {
    &&& forall|len: i32, r: R| call_requires(f, (len, r))
    &&& forall|len: i32, r: R, a: i32, b: i32|
        #[trigger] call_ensures(f, (len, r), a) && #[trigger] call_ensures(f, (len, r), b) ==> a == b
}

/// Length of the first child of a split of `area` whose scaled share is
/// `first`: half the gap goes to each side of the seam.
pub open spec fn first_len(first: i32, gap: i32) -> int {
    first - gap / 2
}

/// Whether splitting `area` stays within `i32`.
pub open spec fn split_fits(area: Rect, dir: SplitDirection, first: i32, gap: i32) -> bool {
    let lw = first_len(first, gap);
    match dir {
        SplitDirection::Horizontal => {
            &&& i32::MIN <= lw <= i32::MAX
            &&& i32::MIN <= area.x + lw <= i32::MAX
            &&& i32::MIN <= area.x + lw + gap <= i32::MAX
            &&& i32::MIN <= area.w - lw <= i32::MAX
            &&& i32::MIN <= area.w - lw - gap <= i32::MAX
        },
        SplitDirection::Vertical => {
            &&& i32::MIN <= lw <= i32::MAX
            &&& i32::MIN <= area.y + lw <= i32::MAX
            &&& i32::MIN <= area.y + lw + gap <= i32::MAX
            &&& i32::MIN <= area.h - lw <= i32::MAX
            &&& i32::MIN <= area.h - lw - gap <= i32::MAX
        },
    }
}

/// The left/top child's rectangle.
pub open spec fn split_first(area: Rect, dir: SplitDirection, first: i32, gap: i32) -> Rect {
    let lw = first_len(first, gap);
    match dir {
        SplitDirection::Horizontal => Rect { x: area.x, y: area.y, w: lw as i32, h: area.h },
        SplitDirection::Vertical => Rect { x: area.x, y: area.y, w: area.w, h: lw as i32 },
    }
}

/// The right/bottom child's rectangle: after the first child and the gap.
pub open spec fn split_second(area: Rect, dir: SplitDirection, first: i32, gap: i32) -> Rect {
    let lw = first_len(first, gap);
    match dir {
        SplitDirection::Horizontal => Rect {
            x: (area.x + lw + gap) as i32,
            y: area.y,
            w: (area.w - lw - gap) as i32,
            h: area.h,
        },
        SplitDirection::Vertical => Rect {
            x: area.x,
            y: (area.y + lw + gap) as i32,
            w: area.w,
            h: (area.h - lw - gap) as i32,
        },
    }
}

/// The length a split of `dir` divides.
pub open spec fn split_len(area: Rect, dir: SplitDirection) -> i32 {
    match dir {
        SplitDirection::Horizontal => area.w,
        SplitDirection::Vertical => area.h,
    }
}

/// Every split of the tree laid out in `area` stays within `i32`.
pub open spec fn layout_fits<R, F: Fn(i32, R) -> i32>(s: Shape<R>, area: Rect, f: F, gap: i32) -> bool
    decreases s,
{
    match s {
        Shape::Leaf { .. } => true,
        Shape::Split { dir, ratio, left, right, .. } => {
            let first = scaled(f, split_len(area, dir), ratio);
            &&& split_fits(area, dir, first, gap)
            &&& layout_fits(*left, split_first(area, dir, first, gap), f, gap)
            &&& layout_fits(*right, split_second(area, dir, first, gap), f, gap)
        },
    }
}

/// Each leaf's window and rectangle, left to right, for the tree laid out in `area`.
pub open spec fn layout_of<R, F: Fn(i32, R) -> i32>(s: Shape<R>, area: Rect, f: F, gap: i32) -> Seq<(u64, Rect)>
    decreases s,
{
    match s {
        Shape::Leaf { surface, .. } => seq![(surface, area)],
        Shape::Split { dir, ratio, left, right, .. } => {
            let first = scaled(f, split_len(area, dir), ratio);
            layout_of(*left, split_first(area, dir, first, gap), f, gap) + layout_of(
                *right,
                split_second(area, dir, first, gap),
                f,
                gap,
            )
        },
    }
}

/// The rectangle of the node at arena index `target` when the tree is laid out in `area`.
pub open spec fn rect_of<R, F: Fn(i32, R) -> i32>(s: Shape<R>, area: Rect, f: F, gap: i32, target: usize) -> Option<Rect>
    decreases s,
{
    if s.idx() == target {
        Some(area)
    } else {
        match s {
            Shape::Leaf { .. } => None,
            Shape::Split { dir, ratio, left, right, .. } => {
                let first = scaled(f, split_len(area, dir), ratio);
                match rect_of(*left, split_first(area, dir, first, gap), f, gap, target) {
                    Some(r) => Some(r),
                    None => rect_of(*right, split_second(area, dir, first, gap), f, gap, target),
                }
            },
        }
    }
}

/// A node of the tree has a rectangle in any layout.
proof fn lemma_rect_of_present<R, F: Fn(i32, R) -> i32>(s: Shape<R>, area: Rect, f: F, gap: i32, j: usize)
    requires
        s.indices().contains(j),
    ensures
        rect_of(s, area, f, gap, j) is Some,
    decreases s,
{
    match s {
        Shape::Leaf { .. } => {},
        Shape::Split { idx, dir, ratio, left, right } => {
            if idx != j {
                let first = scaled(f, split_len(area, dir), ratio);
                if left.indices().contains(j) {
                    lemma_rect_of_present(*left, split_first(area, dir, first, gap), f, gap, j);
                } else {
                    lemma_rect_of_present(*right, split_second(area, dir, first, gap), f, gap, j);
                }
            }
        },
    }
}

/// An index the tree does not use has no rectangle.
proof fn lemma_rect_of_missing<R, F: Fn(i32, R) -> i32>(s: Shape<R>, area: Rect, f: F, gap: i32, j: usize)
    requires
        !s.indices().contains(j),
    ensures
        rect_of(s, area, f, gap, j) is None,
    decreases s,
{
    match s {
        Shape::Leaf { .. } => {},
        Shape::Split { dir, ratio, left, right, .. } => {
            let first = scaled(f, split_len(area, dir), ratio);
            lemma_rect_of_missing(*left, split_first(area, dir, first, gap), f, gap, j);
            lemma_rect_of_missing(*right, split_second(area, dir, first, gap), f, gap, j);
        },
    }
}

/// The rectangles inside the subtree at `i` are those of that subtree laid
/// out in `i`'s rectangle; replacing the subtree by one on the same indices
/// keeps `i`'s rectangle and lays the new one out there.
proof fn lemma_rect_through<R, F: Fn(i32, R) -> i32>(
    s: Shape<R>,
    i: usize,
    new: Shape<R>,
    area: Rect,
    f: F,
    gap: i32,
    j: usize,
)
    requires
        distinct_indices(s),
        s.indices().contains(i),
        new.idx() == i,
        new.indices() == s.sub_at(i).indices(),
        s.sub_at(i).indices().contains(j),
    ensures
        rect_of(s, area, f, gap, i) is Some,
        rect_of(s, area, f, gap, j) == rect_of(s.sub_at(i), rect_of(s, area, f, gap, i)->0, f, gap, j),
        rect_of(s.replace(i, new), area, f, gap, i) == rect_of(s, area, f, gap, i),
        rect_of(s.replace(i, new), area, f, gap, j) == rect_of(new, rect_of(s, area, f, gap, i)->0, f, gap, j),
    decreases s,
{
    match s {
        Shape::Leaf { .. } => {},
        Shape::Split { idx, dir, ratio, left, right } => {
            if idx != i {
                let first = scaled(f, split_len(area, dir), ratio);
                let la = split_first(area, dir, first, gap);
                let ra = split_second(area, dir, first, gap);
                if left.indices().contains(i) {
                    lemma_rect_through(*left, i, new, la, f, gap, j);
                    lemma_replace_absent(*right, i, new);
                    lemma_sub_at_indices(*left, i);
                    assert(j != idx);
                    lemma_rect_of_present(left.sub_at(i), rect_of(*left, la, f, gap, i)->0, f, gap, j);
                    assert(new.indices().contains(j));
                    lemma_rect_of_present(new, rect_of(*left, la, f, gap, i)->0, f, gap, j);
                } else {
                    lemma_rect_through(*right, i, new, ra, f, gap, j);
                    lemma_replace_absent(*left, i, new);
                    lemma_sub_at_indices(*right, i);
                    assert(j != idx);
                    assert(!left.indices().contains(j));
                    lemma_rect_of_missing(*left, la, f, gap, i);
                    lemma_rect_of_missing(*left, la, f, gap, j);
                }
            }
        },
    }
}

/// The subtree at a used index uses only indices of the tree.
proof fn lemma_sub_at_indices<R>(s: Shape<R>, i: usize)
    requires
        s.indices().contains(i),
    ensures
        s.sub_at(i).indices().subset_of(s.indices()),
    decreases s,
{
    match s {
        Shape::Leaf { .. } => {},
        Shape::Split { idx, left, right, .. } => {
            if idx != i {
                if left.indices().contains(i) {
                    lemma_sub_at_indices(*left, i);
                } else {
                    lemma_sub_at_indices(*right, i);
                }
            }
        },
    }
}

/// The deepest split whose seam (widened by `grab` on each side) holds the
/// point (`px`, `py`), with the area that split occupies; children win over parents.
pub open spec fn seam_of<R, F: Fn(i32, R) -> i32>(
    s: Shape<R>,
    area: Rect,
    f: F,
    gap: i32,
    px: i32,
    py: i32,
    grab: i32,
) -> Option<(usize, Rect)>
    decreases s,
{
    match s {
        Shape::Leaf { .. } => None,
        Shape::Split { idx, dir, ratio, left, right } => {
            let first = scaled(f, split_len(area, dir), ratio);
            let child = match seam_of(*left, split_first(area, dir, first, gap), f, gap, px, py, grab) {
                Some(c) => Some(c),
                None => seam_of(*right, split_second(area, dir, first, gap), f, gap, px, py, grab),
            };
            let seam = match dir {
                SplitDirection::Horizontal => area.x + first_len(first, gap) + gap / 2,
                SplitDirection::Vertical => area.y + first_len(first, gap) + gap / 2,
            };
            let hit = match dir {
                SplitDirection::Horizontal => seam - grab <= px <= seam + grab && area.y <= py <= area.y + area.h,
                SplitDirection::Vertical => seam - grab <= py <= seam + grab && area.x <= px <= area.x + area.w,
            };
            if child is Some {
                child
            } else if hit {
                Some((idx, area))
            } else {
                None
            }
        },
    }
}

/// Every split's children use disjoint arena indices, neither holding the
/// split's own.
pub open spec fn distinct_indices<R>(s: Shape<R>) -> bool
    decreases s,
{
    match s {
        Shape::Leaf { .. } => true,
        Shape::Split { idx, left, right, .. } => {
            &&& distinct_indices(*left)
            &&& distinct_indices(*right)
            &&& left.indices().disjoint(right.indices())
            &&& !left.indices().contains(idx)
            &&& !right.indices().contains(idx)
        },
    }
}

/// Position, among the leaves left to right, of the leaf at arena index `i`.
pub open spec fn leaf_pos<R>(s: Shape<R>, i: usize) -> int
    decreases s,
{
    match s {
        Shape::Leaf { .. } => 0,
        Shape::Split { left, right, .. } => if left.indices().contains(i) {
            leaf_pos(*left, i)
        } else {
            left.leaves().len() + leaf_pos(*right, i)
        },
    }
}

proof fn lemma_matches_distinct<R>(n: Seq<TilingNode<R>>, s: Shape<R>)
    requires
        matches(n, s),
    ensures
        distinct_indices(s),
    decreases s,
{
    match s {
        Shape::Leaf { .. } => {},
        Shape::Split { left, right, .. } => {
            lemma_matches_distinct(n, *left);
            lemma_matches_distinct(n, *right);
        },
    }
}

proof fn lemma_layout_len<R, F: Fn(i32, R) -> i32>(s: Shape<R>, area: Rect, f: F, gap: i32)
    ensures
        layout_of(s, area, f, gap).len() == s.leaves().len(),
    decreases s,
{
    match s {
        Shape::Leaf { .. } => {},
        Shape::Split { dir, ratio, left, right, .. } => {
            let first = scaled(f, split_len(area, dir), ratio);
            lemma_layout_len(*left, split_first(area, dir, first, gap), f, gap);
            lemma_layout_len(*right, split_second(area, dir, first, gap), f, gap);
        },
    }
}

/// Relabelling the leaf at arena index `i` with window `x` changes the
/// layout only there: that entry keeps its rectangle and takes `x`, and the
/// shape keeps its indices, its other leaves and their positions.
pub proof fn lemma_set_leaf_layout<R, F: Fn(i32, R) -> i32>(s: Shape<R>, i: usize, x: u64, area: Rect, f: F, gap: i32)
    requires
        distinct_indices(s),
        s.indices().contains(i),
        s.sub_at(i) is Leaf,
    ensures
        0 <= leaf_pos(s, i) < s.leaves().len(),
        layout_of(s, area, f, gap)[leaf_pos(s, i)].0 == leaf_surface(s.sub_at(i)),
        layout_of(set_leaf(s, i, x), area, f, gap) == layout_of(s, area, f, gap).update(
            leaf_pos(s, i),
            (x, layout_of(s, area, f, gap)[leaf_pos(s, i)].1),
        ),
        distinct_indices(set_leaf(s, i, x)),
        set_leaf(s, i, x).indices() == s.indices(),
        forall|j: usize|
            s.indices().contains(j) && j != i && s.sub_at(j) is Leaf ==> #[trigger] set_leaf(s, i, x).sub_at(j)
                == s.sub_at(j) && leaf_pos(set_leaf(s, i, x), j) == leaf_pos(s, j),
    decreases s,
{
    lemma_layout_len(s, area, f, gap);
    match s {
        Shape::Leaf { idx, surface } => {
            assert(s.indices() =~= set![idx]);
            assert(idx == i);
            assert(set_leaf(s, i, x).indices() =~= s.indices());
            assert(layout_of(set_leaf(s, i, x), area, f, gap) =~= layout_of(s, area, f, gap).update(
                0,
                (x, area),
            ));
        },
        Shape::Split { idx, dir, ratio, left, right } => {
            assert(idx != i);
            let first = scaled(f, split_len(area, dir), ratio);
            let la = split_first(area, dir, first, gap);
            let ra = split_second(area, dir, first, gap);
            let new = Shape::<R>::Leaf { idx: i, surface: x };
            lemma_layout_len(*left, la, f, gap);
            lemma_layout_len(*right, ra, f, gap);
            if left.indices().contains(i) {
                assert(!right.indices().contains(i));
                lemma_replace_absent(*right, i, new);
                lemma_set_leaf_layout(*left, i, x, la, f, gap);
                let ls = set_leaf(*left, i, x);
                assert(set_leaf(s, i, x) == Shape::Split { idx, dir, ratio, left: Box::new(ls), right });
                assert(set_leaf(s, i, x).indices() =~= s.indices());
                assert(set_leaf(*left, i, x).leaves().len() == left.leaves().len()) by {
                    lemma_layout_len(ls, la, f, gap);
                }
                assert(layout_of(set_leaf(s, i, x), area, f, gap) =~= layout_of(s, area, f, gap).update(
                    leaf_pos(s, i),
                    (x, layout_of(s, area, f, gap)[leaf_pos(s, i)].1),
                ));
                assert forall|j: usize| s.indices().contains(j) && j != i && s.sub_at(j) is Leaf implies #[trigger] set_leaf(
                    s,
                    i,
                    x,
                ).sub_at(j) == s.sub_at(j) && leaf_pos(set_leaf(s, i, x), j) == leaf_pos(s, j) by {
                    if j == idx {
                        assert(s.sub_at(j) == s);
                    } else if left.indices().contains(j) {
                        assert(s.sub_at(j) == left.sub_at(j));
                        assert(ls.indices().contains(j));
                        assert(set_leaf(s, i, x).sub_at(j) == ls.sub_at(j));
                        assert(set_leaf(*left, i, x).sub_at(j) == left.sub_at(j));
                    } else {
                        assert(right.indices().contains(j));
                        assert(!ls.indices().contains(j));
                        assert(s.sub_at(j) == right.sub_at(j));
                        assert(set_leaf(s, i, x).sub_at(j) == right.sub_at(j));
                    }
                }
            } else {
                assert(right.indices().contains(i));
                lemma_replace_absent(*left, i, new);
                lemma_set_leaf_layout(*right, i, x, ra, f, gap);
                let rs = set_leaf(*right, i, x);
                assert(set_leaf(s, i, x) == Shape::Split { idx, dir, ratio, left, right: Box::new(rs) });
                assert(set_leaf(s, i, x).indices() =~= s.indices());
                assert(layout_of(set_leaf(s, i, x), area, f, gap) =~= layout_of(s, area, f, gap).update(
                    leaf_pos(s, i),
                    (x, layout_of(s, area, f, gap)[leaf_pos(s, i)].1),
                ));
                assert forall|j: usize| s.indices().contains(j) && j != i && s.sub_at(j) is Leaf implies #[trigger] set_leaf(
                    s,
                    i,
                    x,
                ).sub_at(j) == s.sub_at(j) && leaf_pos(set_leaf(s, i, x), j) == leaf_pos(s, j) by {
                    if j == idx {
                        assert(s.sub_at(j) == s);
                    } else if left.indices().contains(j) {
                        assert(s.sub_at(j) == left.sub_at(j));
                        assert(set_leaf(s, i, x).sub_at(j) == left.sub_at(j));
                    } else {
                        assert(right.indices().contains(j));
                        assert(rs.indices().contains(j));
                        assert(s.sub_at(j) == right.sub_at(j));
                        assert(set_leaf(s, i, x).sub_at(j) == rs.sub_at(j));
                        assert(set_leaf(*right, i, x).sub_at(j) == right.sub_at(j));
                    }
                }
            }
        },
    }
}

/// Whether the point is on the seam of split `sp` laid out in `area`: within
/// `grab` of the line between its children, and within the area along it.
pub open spec fn seam_hit<R, F: Fn(i32, R) -> i32>(sp: Shape<R>, area: Rect, f: F, gap: i32, px: i32, py: i32, grab: i32) -> bool {
    match sp {
        Shape::Leaf { .. } => false,
        Shape::Split { dir, ratio, .. } => {
            let first = scaled(f, split_len(area, dir), ratio);
            let seam = match dir {
                SplitDirection::Horizontal => area.x + first_len(first, gap) + gap / 2,
                SplitDirection::Vertical => area.y + first_len(first, gap) + gap / 2,
            };
            match dir {
                SplitDirection::Horizontal => seam - grab <= px <= seam + grab && area.y <= py <= area.y + area.h,
                SplitDirection::Vertical => seam - grab <= py <= seam + grab && area.x <= px <= area.x + area.w,
            }
        },
    }
}

/// Whether no split below `sp` (laid out in `area`) has its seam under the
/// point.
pub open spec fn children_miss<R, F: Fn(i32, R) -> i32>(sp: Shape<R>, area: Rect, f: F, gap: i32, px: i32, py: i32, grab: i32) -> bool {
    match sp {
        Shape::Leaf { .. } => true,
        Shape::Split { dir, ratio, left, right, .. } => {
            let first = scaled(f, split_len(area, dir), ratio);
            &&& seam_of(*left, split_first(area, dir, first, gap), f, gap, px, py, grab) is None
            &&& seam_of(*right, split_second(area, dir, first, gap), f, gap, px, py, grab) is None
        },
    }
}

proof fn lemma_rect_of_absent<R, F: Fn(i32, R) -> i32>(s: Shape<R>, area: Rect, f: F, gap: i32, j: usize)
    requires
        !s.indices().contains(j),
    ensures
        rect_of(s, area, f, gap, j) is None,
    decreases s,
{
    match s {
        Shape::Leaf { .. } => {},
        Shape::Split { dir, ratio, left, right, .. } => {
            let first = scaled(f, split_len(area, dir), ratio);
            lemma_rect_of_absent(*left, split_first(area, dir, first, gap), f, gap, j);
            lemma_rect_of_absent(*right, split_second(area, dir, first, gap), f, gap, j);
        },
    }
}

/// The seam under the pointer is the deepest one: what `seam_of` finds is a
/// split of the tree, the area it reports is that split's own rectangle,
/// its seam holds the point, and no split below it has a seam there.
pub proof fn lemma_seam_is_deepest<R, F: Fn(i32, R) -> i32>(s: Shape<R>, area: Rect, f: F, gap: i32, px: i32, py: i32, grab: i32)
    requires
        distinct_indices(s),
    ensures
        seam_of(s, area, f, gap, px, py, grab) matches Some((i, r)) ==> {
            &&& s.indices().contains(i)
            &&& s.sub_at(i) is Split
            &&& rect_of(s, area, f, gap, i) == Some(r)
            &&& seam_hit(s.sub_at(i), r, f, gap, px, py, grab)
            &&& children_miss(s.sub_at(i), r, f, gap, px, py, grab)
        },
    decreases s,
{
    match s {
        Shape::Leaf { .. } => {},
        Shape::Split { idx, dir, ratio, left, right } => {
            let first = scaled(f, split_len(area, dir), ratio);
            let la = split_first(area, dir, first, gap);
            let ra = split_second(area, dir, first, gap);
            lemma_seam_is_deepest(*left, la, f, gap, px, py, grab);
            lemma_seam_is_deepest(*right, ra, f, gap, px, py, grab);
            match seam_of(*left, la, f, gap, px, py, grab) {
                Some((i, r)) => {
                    assert(i != idx);
                    assert(s.sub_at(i) == left.sub_at(i));
                },
                None => match seam_of(*right, ra, f, gap, px, py, grab) {
                    Some((i, r)) => {
                        assert(i != idx);
                        assert(!left.indices().contains(i));
                        assert(s.sub_at(i) == right.sub_at(i));
                        lemma_rect_of_absent(*left, la, f, gap, i);
                    },
                    None => {},
                },
            }
        },
    }
}

/// The layout lists the leaves' windows in order.
pub proof fn lemma_layout_windows<R, F: Fn(i32, R) -> i32>(s: Shape<R>, area: Rect, f: F, gap: i32)
    ensures
        layout_of(s, area, f, gap).len() == s.leaves().len(),
        forall|i: int| 0 <= i < s.leaves().len() ==> #[trigger] layout_of(s, area, f, gap)[i].0 == s.leaves()[i],
    decreases s,
{
    match s {
        Shape::Leaf { .. } => {},
        Shape::Split { dir, ratio, left, right, .. } => {
            let first = scaled(f, split_len(area, dir), ratio);
            lemma_layout_windows(*left, split_first(area, dir, first, gap), f, gap);
            lemma_layout_windows(*right, split_second(area, dir, first, gap), f, gap);
            let a = layout_of(*left, split_first(area, dir, first, gap), f, gap);
            let b = layout_of(*right, split_second(area, dir, first, gap), f, gap);
            assert forall|i: int| 0 <= i < s.leaves().len() implies #[trigger] layout_of(s, area, f, gap)[i].0
                == s.leaves()[i] by {
                if i < a.len() {
                    assert((a + b)[i] == a[i]);
                } else {
                    assert((a + b)[i] == b[i - a.len()]);
                }
            }
        },
    }
}

/// Split `area` for a split of `dir` whose first child's share is `first`.
pub fn split_area(area: Rect, dir: SplitDirection, first: i32, gap: i32) -> (r: (Rect, Rect))
    requires
        0 <= gap,
        split_fits(area, dir, first, gap),
    ensures
        r == (split_first(area, dir, first, gap), split_second(area, dir, first, gap)),
{
    let half_gap = gap / 2;
    match dir {
        SplitDirection::Horizontal => {
            let lw = first - half_gap;
            let rw = area.w - lw - gap;
            (Rect { x: area.x, y: area.y, w: lw, h: area.h }, Rect { x: area.x + lw + gap, y: area.y, w: rw, h: area.h })
        },
        SplitDirection::Vertical => {
            let th = first - half_gap;
            let bh = area.h - th - gap;
            (Rect { x: area.x, y: area.y, w: area.w, h: th }, Rect { x: area.x, y: area.y + th + gap, w: area.w, h: bh })
        },
    }
}

/// Calling a well-behaved scale function gives `scaled`.
proof fn lemma_scaled<R, F: Fn(i32, R) -> i32>(f: F, len: i32, ratio: R, o: i32)
    requires
        scale_ok(f),
        call_ensures(f, (len, ratio), o),
    ensures
        scaled(f, len, ratio) == o,
{
    let c = scaled(f, len, ratio);
    assert(call_ensures(f, (len, ratio), c));
}

/// `v / 2` rounded toward zero.
pub open spec fn half_of(v: int) -> int {
    if v >= 0 {
        v / 2
    } else {
        -((-v) / 2)
    }
}

/// Centre of a rectangle (halves rounded toward zero).
pub open spec fn center(r: Rect) -> (int, int) {
    (r.x + half_of(r.w as int), r.y + half_of(r.h as int))
}

/// Index of the first entry of `l` among its first `n` holding `surface`.
pub open spec fn first_entry(l: Seq<(u64, Rect)>, surface: u64, n: int) -> Option<int>
    decreases n,
{
    if n <= 0 {
        None
    } else {
        match first_entry(l, surface, n - 1) {
            Some(i) => Some(i),
            None => if l[n - 1].0 == surface {
                Some(n - 1)
            } else {
                None
            },
        }
    }
}

/// Whether a window centred at `n` lies in direction `dir` from `c`.
pub open spec fn lies_toward(c: (int, int), n: (int, int), dir: AdjacentDir) -> bool {
    match dir {
        AdjacentDir::Left => n.0 < c.0,
        AdjacentDir::Right => n.0 > c.0,
        AdjacentDir::Up => n.1 < c.1,
        AdjacentDir::Down => n.1 > c.1,
    }
}

/// Squared distance between two centres.
pub open spec fn dist2(c: (int, int), n: (int, int)) -> int {
    (n.0 - c.0) * (n.0 - c.0) + (n.1 - c.1) * (n.1 - c.1)
}

/// Among the first `n` entries of `l`, the first of those nearest to `c`
/// that lie in direction `dir` and hold another window than `surface`.
pub open spec fn nearest_entry(l: Seq<(u64, Rect)>, surface: u64, c: (int, int), dir: AdjacentDir, n: int) -> Option<int>
    decreases n,
{
    if n <= 0 {
        None
    } else {
        let prev = nearest_entry(l, surface, c, dir, n - 1);
        let j = n - 1;
        let nc = center(l[j].1);
        if l[j].0 != surface && lies_toward(c, nc, dir) && (prev is None || dist2(c, nc) < dist2(
            c,
            center(l[prev->0].1),
        )) {
            Some(j)
        } else {
            prev
        }
    }
}

/// The window of `l` nearest to `surface`'s centre in direction `dir`.
pub open spec fn adjacent_in(l: Seq<(u64, Rect)>, surface: u64, dir: AdjacentDir) -> Option<u64> {
    match first_entry(l, surface, l.len() as int) {
        None => None,
        Some(i) => match nearest_entry(l, surface, center(l[i].1), dir, l.len() as int) {
            Some(j) => Some(l[j].0),
            None => None,
        },
    }
}

proof fn lemma_first_entry_facts(l: Seq<(u64, Rect)>, surface: u64, n: int)
    requires
        0 <= n <= l.len(),
    ensures
        first_entry(l, surface, n) matches Some(i) ==> 0 <= i < n && l[i].0 == surface,
        first_entry(l, surface, n) is None ==> forall|k: int| 0 <= k < n ==> (#[trigger] l[k]).0 != surface,
    decreases n,
{
    if n > 0 {
        lemma_first_entry_facts(l, surface, n - 1);
    }
}

proof fn lemma_nearest_facts(l: Seq<(u64, Rect)>, surface: u64, c: (int, int), dir: AdjacentDir, n: int)
    requires
        0 <= n <= l.len(),
    ensures
        nearest_entry(l, surface, c, dir, n) matches Some(j) ==> {
            &&& 0 <= j < n
            &&& l[j].0 != surface
            &&& lies_toward(c, center(l[j].1), dir)
            &&& forall|k: int|
                0 <= k < n && (#[trigger] l[k]).0 != surface && lies_toward(c, center(l[k].1), dir) ==> dist2(
                    c,
                    center(l[j].1),
                ) <= dist2(c, center(l[k].1))
        },
        nearest_entry(l, surface, c, dir, n) is None ==> forall|k: int|
            0 <= k < n ==> !((#[trigger] l[k]).0 != surface && lies_toward(c, center(l[k].1), dir)),
    decreases n,
{
    if n > 0 {
        lemma_nearest_facts(l, surface, c, dir, n - 1);
    }
}

/// The neighbour found in direction `dir` lies that way. With `c` the
/// centre of `surface`'s (first) rectangle (halves rounded toward zero): a neighbour is found exactly
/// when some other window's centre lies strictly that way from `c` (left:
/// smaller x, right: larger x, up: smaller y, down: larger y); the one found
/// is such a window, and no such window's centre is nearer to `c`. Without
/// a rectangle for `surface` nothing is found.
pub proof fn lemma_adjacent_lies_that_way(l: Seq<(u64, Rect)>, surface: u64, dir: AdjacentDir)
    ensures
        match first_entry(l, surface, l.len() as int) {
            None => adjacent_in(l, surface, dir) is None,
            Some(i) => {
                let c = rect_center(l[i].1);
                &&& l[i].0 == surface
                &&& adjacent_in(l, surface, dir) is None <==> forall|k: int|
                    0 <= k < l.len() ==> !((#[trigger] l[k]).0 != surface && (dir == AdjacentDir::Left && rect_center(l[k].1).0 < c.0 || dir == AdjacentDir::Right && rect_center(l[k].1).0 > c.0
                    || dir == AdjacentDir::Up && rect_center(l[k].1).1 < c.1 || dir == AdjacentDir::Down && rect_center(l[k].1).1
                    > c.1))
                &&& adjacent_in(l, surface, dir) matches Some(w) ==> exists|j: int|
                    0 <= j < l.len() && (#[trigger] l[j]).0 == w && w != surface && (dir == AdjacentDir::Left && rect_center(l[j].1).0 < c.0 || dir == AdjacentDir::Right && rect_center(l[j].1).0 > c.0
                    || dir == AdjacentDir::Up && rect_center(l[j].1).1 < c.1 || dir == AdjacentDir::Down && rect_center(l[j].1).1
                    > c.1) && forall|k: int|
                    0 <= k < l.len() && (#[trigger] l[k]).0 != surface && (dir == AdjacentDir::Left && rect_center(l[k].1).0 < c.0 || dir == AdjacentDir::Right && rect_center(l[k].1).0 > c.0
                    || dir == AdjacentDir::Up && rect_center(l[k].1).1 < c.1 || dir == AdjacentDir::Down && rect_center(l[k].1).1
                    > c.1) ==> (rect_center(l[j].1).0 - c.0) * (rect_center(l[j].1).0 - c.0) + (rect_center(l[j].1).1 - c.1) * (
                rect_center(l[j].1).1 - c.1) <= (rect_center(l[k].1).0 - c.0) * (rect_center(l[k].1).0 - c.0) + (
                rect_center(l[k].1).1 - c.1) * (rect_center(l[k].1).1 - c.1)
            },
        },
{
    let n = l.len() as int;
    lemma_first_entry_facts(l, surface, n);
    assert forall|r: Rect| #[trigger] rect_center(r) == center(r) by {}
    if let Some(i) = first_entry(l, surface, n) {
        let c = center(l[i].1);
        lemma_nearest_facts(l, surface, c, dir, n);
        if let Some(j) = nearest_entry(l, surface, c, dir, n) {
            assert(l[j].0 == l[j].0);
        }
    }
}

proof fn lemma_nearest_range(l: Seq<(u64, Rect)>, surface: u64, c: (int, int), dir: AdjacentDir, n: int)
    requires
        0 <= n <= l.len(),
    ensures
        nearest_entry(l, surface, c, dir, n) matches Some(j) ==> 0 <= j < n,
    decreases n,
{
    if n > 0 {
        lemma_nearest_range(l, surface, c, dir, n - 1);
    }
}

proof fn lemma_first_entry_range(l: Seq<(u64, Rect)>, surface: u64, n: int)
    requires
        0 <= n <= l.len(),
    ensures
        first_entry(l, surface, n) matches Some(j) ==> 0 <= j < n,
    decreases n,
{
    if n > 0 {
        lemma_first_entry_range(l, surface, n - 1);
    }
}

/// Centre of a rectangle, exactly.
fn center_of(r: Rect) -> (c: (i64, i64))
    ensures
        c.0 == center(r).0,
        c.1 == center(r).1,
{
    let w = r.w as i64;
    let h = r.h as i64;
    let hw = if w >= 0 {
        w / 2
    } else {
        -((-w) / 2)
    };
    let hh = if h >= 0 {
        h / 2
    } else {
        -((-h) / 2)
    };
    (r.x as i64 + hw, r.y as i64 + hh)
}

/// Squared distance between two centres, exactly.
fn dist2_of(c: (i64, i64), n: (i64, i64)) -> (d: i128)
    requires
        -0x4000_0000_0000 <= c.0 <= 0x4000_0000_0000,
        -0x4000_0000_0000 <= c.1 <= 0x4000_0000_0000,
        -0x4000_0000_0000 <= n.0 <= 0x4000_0000_0000,
        -0x4000_0000_0000 <= n.1 <= 0x4000_0000_0000,
    ensures
        d == dist2((c.0 as int, c.1 as int), (n.0 as int, n.1 as int)),
{
    let dx = (n.0 - c.0) as i128;
    let dy = (n.1 - c.1) as i128;
    assert(dx * dx <= 0x8000_0000_0000 * 0x8000_0000_0000) by (nonlinear_arith)
        requires
            -0x8000_0000_0000 <= dx <= 0x8000_0000_0000,
    ;
    assert(dy * dy <= 0x8000_0000_0000 * 0x8000_0000_0000) by (nonlinear_arith)
        requires
            -0x8000_0000_0000 <= dy <= 0x8000_0000_0000,
    ;
    assert(0 <= dx * dx) by (nonlinear_arith);
    assert(0 <= dy * dy) by (nonlinear_arith);
    dx * dx + dy * dy
}

/// The window of `layout` nearest to `surface`'s centre in direction `dir`
/// (the first of equally near ones); `None` when `surface` is not laid out
/// or nothing lies that way.
pub fn adjacent_in_layout(layout: &Vec<(u64, Rect)>, surface: u64, dir: AdjacentDir) -> (r: Option<u64>)
    ensures
        r == adjacent_in(layout@, surface, dir),
{
    let mut i: usize = 0;
    let mut cur: Option<usize> = None;
    while i < layout.len()
        invariant
            i <= layout@.len(),
            cur == match first_entry(layout@, surface, i as int) {
                Some(k) => Some(k as usize),
                None => None::<usize>,
            },
        decreases layout@.len() - i,
    {
        proof {
            lemma_first_entry_range(layout@, surface, i as int);
        }
        if cur.is_none() && layout[i].0 == surface {
            cur = Some(i);
        }
        i += 1;
    }
    proof {
        lemma_first_entry_range(layout@, surface, layout@.len() as int);
    }
    let ci = match cur {
        Some(k) => k,
        None => return None,
    };
    let c = center_of(layout[ci].1);
    let mut best: Option<usize> = None;
    let mut best_d: i128 = 0;
    let mut j: usize = 0;
    while j < layout.len()
        invariant
            j <= layout@.len(),
            ci < layout@.len(),
            c.0 == center(layout@[ci as int].1).0,
            c.1 == center(layout@[ci as int].1).1,
            -0x4000_0000_0000 <= c.0 <= 0x4000_0000_0000,
            -0x4000_0000_0000 <= c.1 <= 0x4000_0000_0000,
            best == match nearest_entry(layout@, surface, center(layout@[ci as int].1), dir, j as int) {
                Some(k) => Some(k as usize),
                None => None::<usize>,
            },
            best matches Some(k) ==> k < j && best_d == dist2(
                center(layout@[ci as int].1),
                center(layout@[k as int].1),
            ),
        decreases layout@.len() - j,
    {
        proof {
            lemma_nearest_range(layout@, surface, center(layout@[ci as int].1), dir, j as int);
        }
        let (s, rect) = layout[j];
        let n = center_of(rect);
        if s != surface {
            let toward = match dir {
                AdjacentDir::Left => n.0 < c.0,
                AdjacentDir::Right => n.0 > c.0,
                AdjacentDir::Up => n.1 < c.1,
                AdjacentDir::Down => n.1 > c.1,
            };
            if toward {
                let d = dist2_of(c, n);
                if best.is_none() || d < best_d {
                    best = Some(j);
                    best_d = d;
                }
            }
        }
        j += 1;
    }
    proof {
        lemma_nearest_range(layout@, surface, center(layout@[ci as int].1), dir, j as int);
    }
    match best {
        Some(k) => Some(layout[k].0),
        None => None,
    }
}

/// Replacing a subtree trades its windows for the new subtree's windows.
pub proof fn lemma_replace_multiset<R>(n: Seq<TilingNode<R>>, s: Shape<R>, t: usize, new: Shape<R>)
    requires
        matches(n, s),
        s.indices().contains(t),
    ensures
        s.replace(t, new).leaves().to_multiset().add(s.sub_at(t).leaves().to_multiset())
            =~= s.leaves().to_multiset().add(new.leaves().to_multiset()),
    decreases s,
{
    broadcast use vstd::multiset::group_multiset_axioms;

    let nm = new.leaves().to_multiset();
    if s.idx() == t {
        assert(s.replace(t, new) == new);
        assert(s.sub_at(t) == s) by {
            match s {
                Shape::Leaf { .. } => {},
                Shape::Split { .. } => {},
            }
        }
        let b = s.leaves().to_multiset();
        assert(nm.add(b) =~= b.add(nm));
    } else {
        match s {
            Shape::Leaf { idx, .. } => {
                assert(set![idx].contains(t));
            },
            Shape::Split { idx, left, right, .. } => {
                lemma_multiset_commutative(left.leaves(), right.leaves());
                let lm = left.leaves().to_multiset();
                let rm = right.leaves().to_multiset();
                if left.indices().contains(t) {
                    assert(!right.indices().contains(t));
                    lemma_replace_multiset(n, *left, t, new);
                    lemma_replace_absent(*right, t, new);
                    let l2 = left.replace(t, new).leaves();
                    lemma_multiset_commutative(l2, right.leaves());
                    let sm = left.sub_at(t).leaves().to_multiset();
                    assert(l2.to_multiset().add(sm) =~= lm.add(nm));
                    assert forall|v: u64| #[trigger] l2.to_multiset().add(rm).add(sm).count(v) == lm.add(rm).add(
                        nm,
                    ).count(v) by {
                        assert(l2.to_multiset().add(sm).count(v) == lm.add(nm).count(v));
                    }
                    assert(l2.to_multiset().add(rm).add(sm) =~= lm.add(rm).add(nm));
                } else {
                    assert(right.indices().contains(t));
                    lemma_replace_multiset(n, *right, t, new);
                    lemma_replace_absent(*left, t, new);
                    let r2 = right.replace(t, new).leaves();
                    lemma_multiset_commutative(left.leaves(), r2);
                    let sm = right.sub_at(t).leaves().to_multiset();
                    assert(r2.to_multiset().add(sm) =~= rm.add(nm));
                    assert forall|v: u64| #[trigger] lm.add(r2.to_multiset()).add(sm).count(v) == lm.add(rm).add(
                        nm,
                    ).count(v) by {
                        assert(r2.to_multiset().add(sm).count(v) == rm.add(nm).count(v));
                    }
                    assert(lm.add(r2.to_multiset()).add(sm) =~= lm.add(rm).add(nm));
                }
            },
        }
    }
}

/// A one-element sequence holds its element once.
proof fn lemma_ms_one(a: u64)
    ensures
        seq![a].to_multiset() =~= Multiset::<u64>::empty().insert(a),
{
    broadcast use vstd::seq_lib::group_to_multiset_ensures;
    broadcast use vstd::multiset::group_multiset_axioms;

    let e = Seq::<u64>::empty();
    e.to_multiset_ensures();
    assert(e.to_multiset() =~= Multiset::<u64>::empty()) by {
        assert forall|v: u64| #[trigger] e.to_multiset().count(v) == 0 by {
            assert(!e.contains(v));
        }
    }
    assert(seq![a] =~= e.push(a));
}

/// A two-element sequence holds its two elements.
proof fn lemma_ms_two(a: u64, b: u64)
    ensures
        seq![a, b].to_multiset() =~= Multiset::<u64>::empty().insert(a).insert(b),
{
    broadcast use vstd::seq_lib::group_to_multiset_ensures;

    lemma_ms_one(a);
    assert(seq![a, b] =~= seq![a].push(b));
}

/// A BSP tiling tree over window ids, with ratios of type `R`.
pub struct TilingState<R> {
    nodes: Vec<TilingNode<R>>,
    root: Option<usize>,
    active: bool,
    gap: i32,
    outer_gap: i32,
    shape: Ghost<Option<Shape<R>>>,
}

impl<R: Copy> TilingState<R> {
    /// The tree as a recursive value (`None` when empty).
    pub closed spec fn view(&self) -> Option<Shape<R>> {
        self.shape@
    }

    /// Whether tiling is switched on.
    pub closed spec fn spec_active(&self) -> bool {
        self.active
    }

    /// Gap between tiles.
    pub closed spec fn spec_gap(&self) -> i32 {
        self.gap
    }

    /// Gap between tiles and the area's edge.
    pub closed spec fn spec_outer_gap(&self) -> i32 {
        self.outer_gap
    }

    pub closed spec fn arena(&self) -> Seq<TilingNode<R>> {
        self.nodes@
    }

    pub closed spec fn root_index(&self) -> Option<usize> {
        self.root
    }

    /// Well-formedness: arena, root and shape agree.
    pub closed spec fn wf(&self) -> bool {
        &&& self.nodes@.len() <= usize::MAX
        &&& match (self.root, self.shape@) {
            (None, None) => true,
            (Some(r), Some(s)) => s.idx() == r && matches(self.nodes@, s),
            _ => false,
        }
        &&& forall|i: int|
            0 <= i < self.nodes@.len() ==> (#[trigger] self.nodes@[i] is Empty <==> !(
            self.shape@ is Some && self.shape@->0.indices().contains(i as usize)))
    }

    /// Swapping two windows trades their rectangles: laid out after the swap,
    /// `b` takes the place and rectangle `a` had and `a` those `b` had, and
    /// every other entry of the layout stays as it was.
    pub proof fn lemma_swap_trades_rects<F: Fn(i32, R) -> i32>(&self, a: u64, b: u64, area: Rect, f: F, gap: i32)
        requires
            self.wf(),
            self.spec_leaves().contains(a),
            self.spec_leaves().contains(b),
            a != b,
        ensures
            ({
                let s = self.view()->0;
                let ia = first_leaf(self.arena(), a)->0 as usize;
                let ib = first_leaf(self.arena(), b)->0 as usize;
                let l = layout_of(s, area, f, gap);
                let pa = leaf_pos(s, ia);
                let pb = leaf_pos(s, ib);
                &&& 0 <= pa < l.len() && 0 <= pb < l.len() && pa != pb
                &&& l[pa].0 == a && l[pb].0 == b
                &&& layout_of(set_leaf(set_leaf(s, ia, b), ib, a), area, f, gap) == l.update(pa, (b, l[pa].1)).update(
                    pb,
                    (a, l[pb].1),
                )
            }),
    {
        let s = self.shape@->0;
        let n = self.nodes@;
        let pa_ = |x: TilingNode<R>| is_leaf_of(x, a);
        let pb_ = |x: TilingNode<R>| is_leaf_of(x, b);
        lemma_first_where_facts(n, pa_);
        lemma_first_where_facts(n, pb_);
        lemma_indices(n, s);
        let wa = lemma_leaf_witness(n, s, a);
        assert(pa_(n[wa as int]));
        let wb = lemma_leaf_witness(n, s, b);
        assert(pb_(n[wb as int]));
        let ia = first_leaf(n, a)->0 as usize;
        let ib = first_leaf(n, b)->0 as usize;
        assert(pa_(n[ia as int]) && pb_(n[ib as int]));
        assert(s.indices().contains(ia)) by {
            assert(!(n[ia as int] is Empty));
        }
        assert(s.indices().contains(ib)) by {
            assert(!(n[ib as int] is Empty));
        }
        lemma_leaf_at(n, s, ia, a);
        lemma_leaf_at(n, s, ib, b);
        assert(ia != ib);
        lemma_matches_distinct(n, s);
        lemma_set_leaf_layout(s, ia, b, area, f, gap);
        let s1 = set_leaf(s, ia, b);
        assert(s1.sub_at(ib) == s.sub_at(ib));
        lemma_set_leaf_layout(s1, ib, a, area, f, gap);
        assert(leaf_pos(s1, ib) == leaf_pos(s, ib));
        lemma_layout_len(s, area, f, gap);
        lemma_set_leaf_layout(s, ib, a, area, f, gap);
        let l = layout_of(s, area, f, gap);
        assert(l[leaf_pos(s, ia)].0 == a);
        assert(l[leaf_pos(s, ib)].0 == b);
        assert(leaf_pos(s, ia) != leaf_pos(s, ib));
        assert(layout_of(s1, area, f, gap)[leaf_pos(s, ib)] == l[leaf_pos(s, ib)]);
    }

    /// In a well-formed tree the arena's leaf slots are the shape's leaves.
    proof fn lemma_count_leaves(&self)
        requires
            self.wf(),
        ensures
            count_leaves(self.nodes@) == self.spec_leaves().len(),
    {
        let len = self.nodes@.len() as int;
        lemma_count_prefix(self.nodes@, len);
        assert(self.nodes@.subrange(0, len) =~= self.nodes@);
        match self.shape@ {
            None => {
                assert(leaf_slots(self.nodes@, len) =~= Set::empty());
            },
            Some(s) => {
                lemma_leaf_set(self.nodes@, s);
                lemma_indices(self.nodes@, s);
                let ls = s.leaf_set().map(|i: usize| i as int);
                assert(leaf_slots(self.nodes@, len) =~= ls) by {
                    assert forall|i: int| leaf_slots(self.nodes@, len).contains(i) implies ls.contains(i) by {
                        assert(!(self.nodes@[i] is Empty));
                        assert(s.indices().contains(i as usize));
                        assert(s.leaf_set().contains(i as usize));
                    }
                    assert forall|i: int| ls.contains(i) implies leaf_slots(self.nodes@, len).contains(i) by {
                        let u = choose|u: usize| s.leaf_set().contains(u) && u as int == i;
                        assert(s.indices().contains(u));
                    }
                }
                lemma_map_len_injective(s.leaf_set());
            },
        }
    }

    /// The arena's first parent slot of `c` is `c`'s parent in the shape.
    proof fn lemma_first_parent(&self, c: usize)
        requires
            self.wf(),
            self.view() is Some,
            self.view()->0.indices().contains(c),
        ensures
            first_parent(self.nodes@, c) == match self.view()->0.parent_of(c) {
                Some(p) => Some(p as int),
                None => None::<int>,
            },
            c == self.view()->0.idx() <==> self.view()->0.parent_of(c) is None,
    {
        let s = self.view()->0;
        let pred = |n: TilingNode<R>| is_parent_of(n, c);
        lemma_first_where_facts(self.nodes@, pred);
        lemma_indices(self.nodes@, s);
        match first_where(self.nodes@, pred) {
            Some(p) => {
                assert(pred(self.nodes@[p]));
                assert(!(self.nodes@[p] is Empty));
                assert(s.indices().contains(p as usize));
                lemma_parent(self.nodes@, s, p as usize, c);
            },
            None => {
                if c != s.idx() {
                    let p = lemma_parent_exists(self.nodes@, s, c);
                    assert(pred(self.nodes@[p as int]));
                }
            },
        }
    }

    /// What inserting `surface` makes of this tree. An empty tree becomes
    /// the one leaf `surface`. Otherwise the leaf chosen by `insert_target`
    /// becomes a split (of `insert_dir`, ratio `half`) over itself, moved to
    /// a free slot, and a new leaf for `surface`; the root keeps its slot.
    /// The windows gain `surface`.
    pub open spec fn inserted_into(&self, next: Self, surface: u64, near: Option<u64>, half: R) -> bool {
        &&& next.wf()
        &&& match self.view() {
            None => {
                let a = alloc_in(self.arena(), TilingNode::<R>::Leaf { surface });
                next.view() == Some(Shape::<R>::Leaf { idx: a.1, surface }) && next.arena() == a.0
            },
            Some(s) => {
                let t = insert_target(self.arena(), s, near);
                &&& next.view() is Some
                &&& next.view()->0.idx() == s.idx()
                &&& next.view()->0.erase() == inserted(s, t, surface, insert_dir(s, t), half)
                &&& ({
                    let ts = leaf_surface(s.sub_at(t));
                    let sl = split_slots(self.arena(), ts, surface);
                    &&& next.view() == Some(split_leaf_shape(s, t, sl.0, sl.1, surface, insert_dir(s, t), half))
                    &&& next.arena() == split_arena(self.arena(), t, ts, surface, insert_dir(s, t), half)
                })
            },
        }
        &&& next.spec_leaves().to_multiset() =~= self.spec_leaves().to_multiset().insert(surface)
    }

    /// What removing `surface` makes of this tree. When it holds `surface`,
    /// the first leaf slot holding it goes: the tree empties if that leaf is
    /// the root (its slot freed), else its sibling moves into its parent's
    /// slot and the sibling's and the leaf's slots are freed, the root keeping
    /// its slot; the windows lose one `surface`. Otherwise nothing changes.
    pub open spec fn removed_into(&self, next: Self, surface: u64) -> bool {
        &&& next.wf()
        &&& !self.spec_leaves().contains(surface) ==> next.view() == self.view() && next.arena() == self.arena()
        &&& self.spec_leaves().contains(surface) ==> ({
            let s = self.view()->0;
            let t = first_leaf(self.arena(), surface)->0 as usize;
            if t == s.idx() {
                next.view() is None && next.arena() == self.arena().update(t as int, TilingNode::<R>::Empty)
            } else {
                &&& next.view() == Some(removed_shape(s, t))
                &&& next.arena() == removed_arena(self.arena(), s, t)
                &&& next.view()->0.idx() == s.idx()
                &&& next.view()->0.erase() == removed(s, t)
            }
        })
        &&& self.spec_leaves().contains(surface) ==> next.spec_leaves().to_multiset()
            =~= self.spec_leaves().to_multiset().remove(surface)
    }

    /// Removing a window just inserted gives back the tree it was inserted
    /// into (up to the arena slots it uses), and so the same layout in any
    /// area; an empty tree stays empty.
    pub proof fn lemma_remove_undoes_insert<F: Fn(i32, R) -> i32>(
        &self,
        mid: Self,
        last: Self,
        surface: u64,
        near: Option<u64>,
        half: R,
        area: Rect,
        f: F,
        gap: i32,
    )
        requires
            self.wf(),
            !self.spec_leaves().contains(surface),
            self.inserted_into(mid, surface, near, half),
            mid.removed_into(last, surface),
        ensures
            last.view() is None <==> self.view() is None,
            self.view() is Some ==> last.view()->0.erase() == self.view()->0.erase() && layout_of(
                last.view()->0,
                area,
                f,
                gap,
            ) == layout_of(self.view()->0, area, f, gap),
    {
        broadcast use vstd::multiset::group_multiset_axioms;
        broadcast use vstd::seq_lib::group_to_multiset_ensures;

        let n1 = mid.nodes@;
        let s1 = mid.shape@->0;
        match self.shape@ {
            None => {
                let r = s1.idx();
                assert(s1.indices() =~= set![r]);
                assert(s1.leaves() =~= seq![surface]);
                assert(mid.spec_leaves().contains(surface)) by {
                    assert(s1.leaves()[0] == surface);
                }
                let p = |m: TilingNode<R>| is_leaf_of(m, surface);
                lemma_first_where_facts(n1, p);
                assert(p(n1[r as int]));
                let k = first_where(n1, p)->0;
                assert(!(n1[k] is Empty));
            },
            Some(s) => {
                let n = self.nodes@;
                lemma_indices(n, s);
                let tt = insert_target(n, s, near);
                let dir = insert_dir(s, tt);
                assert(s.indices().contains(tt) && n[tt as int] is Leaf) by {
                    if let Some(v) = near {
                        let pv = |m: TilingNode<R>| is_leaf_of(m, v);
                        lemma_first_where_facts(n, pv);
                        if let Some(i) = first_where(n, pv) {
                            assert(!(n[i] is Empty));
                        }
                    }
                }
                let ts = n[tt as int]->surface;
                lemma_leaf_at(n, s, tt, ts);
                assert(ts != surface);
                let m = split_slots(n, ts, surface).0;
                let nl = split_slots(n, ts, surface).1;
                let back = Shape::<R>::Leaf { idx: m, surface: ts };
                let fresh = Shape::<R>::Leaf { idx: nl, surface };
                let newsub = Shape::Split { idx: tt, dir, ratio: half, left: Box::new(back), right: Box::new(fresh) };
                assert(s1 == s.replace(tt, newsub));
                lemma_matches_replaced(n1, s, tt, newsub);
                assert(matches(n1, fresh) && matches(n1, back));
                assert(back.indices() =~= set![m]);
                assert(fresh.indices() =~= set![nl]);
                assert(back.indices().contains(m) && fresh.indices().contains(nl));
                assert(m != nl && nl != tt);
                assert(n1[nl as int] == (TilingNode::<R>::Leaf { surface }));
                lemma_replace_contains(s, tt, newsub);
                assert(newsub.indices().contains(nl) && newsub.indices().contains(tt));
                assert(s1.leaves().to_multiset().count(surface) == 1) by {
                    assert(s.leaves().to_multiset().count(surface) == 0);
                }
                lemma_first_leaf_once(n1, s1, nl, surface);
                lemma_leaf_at(n1, s1, nl, surface);
                lemma_parent(n1, s1, tt, nl);
                lemma_replace_sub_at(s, tt, newsub);
                assert(sibling_of(s1.sub_at(tt), nl) == back);
                lemma_replace_twice(s, tt, newsub, back);
                lemma_replace_erase(s, tt, back, Shape::Leaf { idx: tt, surface: ts });
                lemma_leaf_at_every(n, s, tt, ts);
                lemma_replace_same_leaf(s, tt, ts);
                assert(last.view()->0.erase() == s.erase());
                lemma_layout_erase(last.view()->0, s, area, f, gap);
            },
        }
    }

    /// A well-formed tree uses each arena index at one node only, which is
    /// what `lemma_seam_is_deepest` asks of it.
    pub proof fn lemma_wf_distinct(&self)
        requires
            self.wf(),
            self.view() is Some,
        ensures
            distinct_indices(self.view()->0),
    {
        lemma_matches_distinct(self.nodes@, self.shape@->0);
    }

    /// Resizing a window changes only the split right above it: with that
    /// split's ratio set to `r2` (as `resize_split` does), the split keeps
    /// its rectangle, and the window's rectangle is the split's first or
    /// second part for the new scaled share in place of the old one. So the
    /// window grows along the split when its side's share grows: the
    /// left/top child when the share does not shrink, the right/bottom one
    /// when it does not grow (as long as both splits stay within `i32`).
    pub proof fn lemma_resize_grows<F: Fn(i32, R) -> i32>(&self, surface: u64, r2: R, area: Rect, f: F, gap: i32)
        requires
            self.wf(),
            self.spec_leaves().contains(surface),
            first_leaf(self.arena(), surface)->0 as usize != self.view()->0.idx(),
        ensures
            ({
                let s = self.view()->0;
                let t = first_leaf(self.arena(), surface)->0 as usize;
                let p = s.parent_of(t)->0;
                let sp = s.sub_at(p);
                let dir = sp->dir;
                let pr = rect_of(s, area, f, gap, p)->0;
                let old1 = scaled(f, split_len(pr, dir), sp->ratio);
                let new1 = scaled(f, split_len(pr, dir), r2);
                let s2 = set_ratio(s, p, r2);
                let left = sp->left.idx() == t;
                let before = if left { split_first(pr, dir, old1, gap) } else { split_second(pr, dir, old1, gap) };
                let after = if left { split_first(pr, dir, new1, gap) } else { split_second(pr, dir, new1, gap) };
                &&& s.parent_of(t) is Some && sp is Split
                &&& rect_of(s, area, f, gap, p) is Some
                &&& rect_of(s2, area, f, gap, p) == rect_of(s, area, f, gap, p)
                &&& rect_of(s, area, f, gap, t) == Some(before)
                &&& rect_of(s2, area, f, gap, t) == Some(after)
                &&& (left && old1 <= new1 || !left && new1 <= old1) && split_fits(pr, dir, old1, gap) && split_fits(
                    pr,
                    dir,
                    new1,
                    gap,
                ) ==> split_len(before, dir) <= split_len(after, dir)
            }),
    {
        let s = self.shape@->0;
        let n = self.nodes@;
        let pl = |x: TilingNode<R>| is_leaf_of(x, surface);
        lemma_first_where_facts(n, pl);
        lemma_indices(n, s);
        let w = lemma_leaf_witness(n, s, surface);
        assert(pl(n[w as int]));
        let t = first_leaf(n, surface)->0 as usize;
        assert(pl(n[t as int]));
        assert(!(n[t as int] is Empty));
        lemma_leaf_at(n, s, t, surface);
        self.lemma_first_parent(t);
        lemma_parent_facts(n, s, t);
        let p = s.parent_of(t)->0;
        lemma_sub_at(n, s, p);
        let sp = s.sub_at(p);
        lemma_matches_distinct(n, s);
        let l = *sp->left;
        let r = *sp->right;
        assert(matches(n, l) && matches(n, r));
        lemma_indices(n, l);
        lemma_indices(n, r);
        assert(l.idx() == t || r.idx() == t);
        assert(sp.indices().contains(t));
        let new = sp.with_ratio(r2);
        assert(new.indices() =~= sp.indices());
        lemma_rect_through(s, p, new, area, f, gap, t);
        lemma_rect_through(s, p, sp, area, f, gap, p);
        assert(sp.indices().contains(p));
        lemma_rect_through(s, p, new, area, f, gap, p);
        if l.idx() != t {
            assert(!l.indices().contains(t));
            let pr = rect_of(s, area, f, gap, p)->0;
            let dir = sp->dir;
            lemma_rect_of_missing(l, split_first(pr, dir, scaled(f, split_len(pr, dir), sp->ratio), gap), f, gap, t);
            lemma_rect_of_missing(l, split_first(pr, dir, scaled(f, split_len(pr, dir), r2), gap), f, gap, t);
        }
        let pr = rect_of(s, area, f, gap, p)->0;
        let dir = sp->dir;
        let old1 = scaled(f, split_len(pr, dir), sp->ratio);
        let new1 = scaled(f, split_len(pr, dir), r2);
        let s2 = set_ratio(s, p, r2);
        assert(s2 == s.replace(p, new));
        assert(rect_of(s, area, f, gap, t) == rect_of(sp, pr, f, gap, t));
        assert(rect_of(s2, area, f, gap, t) == rect_of(new, pr, f, gap, t));
        let left = l.idx() == t;
        let before = if left { split_first(pr, dir, old1, gap) } else { split_second(pr, dir, old1, gap) };
        let after = if left { split_first(pr, dir, new1, gap) } else { split_second(pr, dir, new1, gap) };
        if left {
            assert(rect_of(l, split_first(pr, dir, old1, gap), f, gap, t) == Some(before));
            assert(rect_of(l, split_first(pr, dir, new1, gap), f, gap, t) == Some(after));
        } else {
            assert(rect_of(r, split_second(pr, dir, old1, gap), f, gap, t) == Some(before));
            assert(rect_of(r, split_second(pr, dir, new1, gap), f, gap, t) == Some(after));
        }
        assert(rect_of(sp, pr, f, gap, t) == Some(before));
        assert(rect_of(new, pr, f, gap, t) == Some(after));
    }

    /// What swapping `a` and `b` makes of this tree: when both are in it and
    /// differ, the first leaf slot of each takes the other window, in the
    /// shape and in the arena; otherwise nothing changes.
    pub open spec fn swapped_into(&self, next: Self, a: u64, b: u64) -> bool {
        let ia = first_leaf(self.arena(), a)->0 as usize;
        let ib = first_leaf(self.arena(), b)->0 as usize;
        &&& next.wf()
        &&& if self.spec_leaves().contains(a) && self.spec_leaves().contains(b) && a != b {
            &&& next.view() == Some(set_leaf(set_leaf(self.view()->0, ia, b), ib, a))
            &&& next.arena() == self.arena().update(ia as int, TilingNode::<R>::Leaf { surface: b }).update(
                ib as int,
                TilingNode::<R>::Leaf { surface: a },
            )
        } else {
            next.view() == self.view() && next.arena() == self.arena()
        }
    }

    /// Swapping the same two windows twice puts every window back in its
    /// place, when neither of the two is held twice.
    pub proof fn lemma_swap_twice(&self, mid: Self, last: Self, a: u64, b: u64)
        requires
            self.wf(),
            self.spec_leaves().to_multiset().count(a) <= 1,
            self.spec_leaves().to_multiset().count(b) <= 1,
            self.swapped_into(mid, a, b),
            mid.swapped_into(last, a, b),
        ensures
            last.view() == self.view(),
            last.arena() == self.arena(),
    {
        if !(self.spec_leaves().contains(a) && self.spec_leaves().contains(b) && a != b) {
            assert(mid.view() == self.view() && mid.arena() == self.arena());
            assert(last.view() == mid.view() && last.arena() == mid.arena());
        } else {
            let s = self.shape@->0;
            let n = self.nodes@;
            lemma_indices(n, s);
            let ia = lemma_leaf_witness(n, s, a);
            let ib = lemma_leaf_witness(n, s, b);
            lemma_first_leaf_once(n, s, ia, a);
            lemma_first_leaf_once(n, s, ib, b);
            lemma_first_leaf_after_trade(n, s, ia, ib, a, b);
            let s1 = set_leaf(set_leaf(s, ia, b), ib, a);
            let n1 = n.update(ia as int, TilingNode::<R>::Leaf { surface: b }).update(
                ib as int,
                TilingNode::<R>::Leaf { surface: a },
            );
            assert(mid.wf() && mid.view() == Some(s1) && mid.arena() == n1);
            assert(mid.spec_leaves().contains(a) && mid.spec_leaves().contains(b)) by {
                assert(!(n1[ib as int] is Empty));
                assert(!(n1[ia as int] is Empty));
                lemma_leaf_at(n1, s1, ib, a);
                lemma_leaf_at(n1, s1, ia, b);
            }
            assert(last.view() == Some(set_leaf(set_leaf(s1, ib, b), ia, a)) && last.arena() == n1.update(
                ib as int,
                TilingNode::<R>::Leaf { surface: b },
            ).update(ia as int, TilingNode::<R>::Leaf { surface: a }));
            assert(last.view() == self.view()) by {
                lemma_leaf_at_every(n, s, ia, a);
                lemma_leaf_at_every(n, s, ib, b);
                lemma_set_leaf_back(s, ia, a, ib, b);
            }
            assert(last.arena() =~= n);
        }
    }

    /// Leaf window ids of the tree, left to right.
    pub open spec fn spec_leaves(&self) -> Seq<u64> {
        match self.view() {
            None => Seq::empty(),
            Some(s) => s.leaves(),
        }
    }

    /// An empty, inactive tree with the given gaps.
    pub fn new(gap: i32, outer_gap: i32) -> (r: Self)
        ensures
            r.wf(),
            r.view() is None,
            r.arena().len() == 0,
            !r.spec_active(),
            r.spec_gap() == gap,
            r.spec_outer_gap() == outer_gap,
    {
        TilingState { nodes: Vec::new(), root: None, active: false, gap, outer_gap, shape: Ghost(None) }
    }

    /// Whether tiling is switched on.
    pub fn is_active(&self) -> (r: bool)
        ensures
            r == self.spec_active(),
    {
        self.active
    }

    /// Gap between tiles.
    pub fn gap(&self) -> (r: i32)
        ensures
            r == self.spec_gap(),
    {
        self.gap
    }

    /// Gap between tiles and the area's edge.
    pub fn outer_gap(&self) -> (r: i32)
        ensures
            r == self.spec_outer_gap(),
    {
        self.outer_gap
    }

    /// Drop every node.
    pub fn clear(&mut self)
        ensures
            final(self).wf(),
            final(self).view() is None,
            final(self).arena().len() == 0,
            final(self).spec_active() == old(self).spec_active(),
            final(self).spec_gap() == old(self).spec_gap(),
            final(self).spec_outer_gap() == old(self).spec_outer_gap(),
    {
        self.nodes.clear();
        self.root = None;
        self.shape = Ghost(None);
    }

    /// Flip tiling on or off; turning it off clears the tree. Returns the new state.
    pub fn toggle(&mut self) -> (r: bool)
        requires
            old(self).wf(),
        ensures
            final(self).wf(),
            r == !old(self).spec_active(),
            final(self).spec_active() == r,
            final(self).spec_gap() == old(self).spec_gap(),
            final(self).spec_outer_gap() == old(self).spec_outer_gap(),
            r ==> final(self).view() == old(self).view() && final(self).arena() == old(self).arena(),
            !r ==> final(self).view() is None && final(self).arena().len() == 0,
    {
        self.active = !self.active;
        if !self.active {
            self.clear();
        }
        self.active
    }

    /// First arena slot that is a leaf holding `surface`.
    fn find_leaf(&self, surface: u64) -> (r: Option<usize>)
        ensures
            match r {
                Some(i) => first_leaf(self.nodes@, surface) == Some(i as int),
                None => first_leaf(self.nodes@, surface) is None,
            },
    {
        let ghost pred = |n: TilingNode<R>| is_leaf_of(n, surface);
        let mut i: usize = 0;
        while i < self.nodes.len()
            invariant
                i <= self.nodes@.len(),
                forall|j: int| 0 <= j < i ==> !pred(#[trigger] self.nodes@[j]),
                pred == (|n: TilingNode<R>| is_leaf_of(n, surface)),
            decreases self.nodes@.len() - i,
        {
            let n = &self.nodes[i];
            if let TilingNode::Leaf { surface: s } = n {
                if *s == surface {
                    proof {
                        assert(pred(self.nodes@[i as int]));
                        lemma_first_where_is(self.nodes@, pred, i as int);
                    }
                    return Some(i);
                }
            }
            assert(!pred(self.nodes@[i as int]));
            i += 1;
        }
        proof {
            lemma_first_where_facts(self.nodes@, pred);
        }
        None
    }

    /// First arena slot that is a split with child `child`.
    fn find_parent(&self, child: usize) -> (r: Option<usize>)
        ensures
            match r {
                Some(i) => first_parent(self.nodes@, child) == Some(i as int),
                None => first_parent(self.nodes@, child) is None,
            },
    {
        let ghost pred = |n: TilingNode<R>| is_parent_of(n, child);
        let mut i: usize = 0;
        while i < self.nodes.len()
            invariant
                i <= self.nodes@.len(),
                forall|j: int| 0 <= j < i ==> !pred(#[trigger] self.nodes@[j]),
                pred == (|n: TilingNode<R>| is_parent_of(n, child)),
            decreases self.nodes@.len() - i,
        {
            let n = &self.nodes[i];
            if let TilingNode::Split { left, right, .. } = n {
                if *left == child || *right == child {
                    proof {
                        assert(pred(self.nodes@[i as int]));
                        lemma_first_where_is(self.nodes@, pred, i as int);
                    }
                    return Some(i);
                }
            }
            assert(!pred(self.nodes@[i as int]));
            i += 1;
        }
        proof {
            lemma_first_where_facts(self.nodes@, pred);
        }
        None
    }

    /// Whether some leaf holds `surface`.
    pub fn contains(&self, surface: u64) -> (r: bool)
        requires
            self.wf(),
        ensures
            r == self.spec_leaves().contains(surface),
    {
        let found = self.find_leaf(surface);
        proof {
            let ghost pred = |n: TilingNode<R>| is_leaf_of(n, surface);
            lemma_first_where_facts(self.nodes@, pred);
            match self.shape@ {
                None => {
                    if found is Some {
                        let i = found->0;
                        assert(pred(self.nodes@[i as int]));
                        assert(!(self.nodes@[i as int] is Empty));
                    }
                },
                Some(s) => {
                    if found is Some {
                        let i = found->0;
                        assert(pred(self.nodes@[i as int]));
                        assert(!(self.nodes@[i as int] is Empty));
                        lemma_leaf_at(self.nodes@, s, i, surface);
                    } else if s.leaves().contains(surface) {
                        let w = lemma_leaf_witness(self.nodes@, s, surface);
                        lemma_indices(self.nodes@, s);
                        assert(pred(self.nodes@[w as int]));
                    }
                },
            }
        }
        found.is_some()
    }

    /// Number of leaf slots.
    pub fn leaf_count(&self) -> (r: usize)
        ensures
            r == count_leaves(self.arena()),
            self.wf() ==> r == self.spec_leaves().len(),
    {
        let mut n: usize = 0;
        let mut i: usize = 0;
        while i < self.nodes.len()
            invariant
                i <= self.nodes@.len(),
                n == count_leaves(self.nodes@.subrange(0, i as int)),
                n <= i,
            decreases self.nodes@.len() - i,
        {
            proof {
                assert(self.nodes@.subrange(0, i + 1).drop_last() =~= self.nodes@.subrange(0, i as int));
            }
            if let TilingNode::Leaf { .. } = self.nodes[i] {
                n += 1;
            }
            i += 1;
        }
        proof {
            assert(self.nodes@.subrange(0, i as int) =~= self.nodes@);
            if self.wf() {
                self.lemma_count_leaves();
            }
        }
        n
    }

    /// Store `node` in the first free slot, or append it. Returns its index.
    fn alloc_slot(&mut self, node: TilingNode<R>) -> (idx: usize)
        ensures
            match first_empty(old(self).nodes@) {
                Some(e) => idx == e && final(self).nodes@ == old(self).nodes@.update(e, node),
                None => idx == old(self).nodes@.len() && final(self).nodes@ == old(self).nodes@.push(node),
            },
            final(self).root == old(self).root,
            final(self).shape == old(self).shape,
            final(self).active == old(self).active,
            final(self).gap == old(self).gap,
            final(self).outer_gap == old(self).outer_gap,
    {
        let ghost pred = |n: TilingNode<R>| n is Empty;
        let mut i: usize = 0;
        while i < self.nodes.len()
            invariant
                i <= self.nodes@.len(),
                self.nodes@ == old(self).nodes@,
                self.root == old(self).root,
                self.shape == old(self).shape,
                self.active == old(self).active,
                self.gap == old(self).gap,
                self.outer_gap == old(self).outer_gap,
                forall|j: int| 0 <= j < i ==> !pred(#[trigger] self.nodes@[j]),
                pred == (|n: TilingNode<R>| n is Empty),
            decreases self.nodes@.len() - i,
        {
            let n = &self.nodes[i];
            if let TilingNode::Empty = n {
                proof {
                    assert(pred(self.nodes@[i as int]));
                    lemma_first_where_is(self.nodes@, pred, i as int);
                }
                self.nodes.set(i, node);
                return i;
            }
            assert(!pred(self.nodes@[i as int]));
            i += 1;
        }
        proof {
            lemma_first_where_facts(self.nodes@, pred);
        }
        let idx = self.nodes.len();
        self.nodes.push(node);
        idx
    }

    /// Leftmost shallowest leaf below `idx` and its depth (`depth` is the depth of `idx`).
    fn shallowest_leaf_at(&self, idx: usize, depth: usize, Ghost(sub): Ghost<Shape<R>>) -> (r: Option<(usize, usize)>)
        requires
            matches(self.nodes@, sub),
            sub.idx() == idx,
            depth + sub.height() <= usize::MAX,
        ensures
            r == Some((sub.shallowest().0, (depth + sub.shallowest().1) as usize)),
        decreases sub,
    {
        proof {
            lemma_indices(self.nodes@, sub);
        }
        match &self.nodes[idx] {
            TilingNode::Leaf { .. } => {
                assert(sub is Leaf);
                Some((idx, depth))
            },
            TilingNode::Split { left, right, .. } => {
                assert(sub is Split);
                let ghost gl: Shape<R> = *sub->left;
                let ghost gr: Shape<R> = *sub->right;
                assert(*left == gl.idx() && *right == gr.idx());
                proof {
                    lemma_indices(self.nodes@, gl);
                    lemma_indices(self.nodes@, gr);
                }
                let l = self.shallowest_leaf_at(*left, depth + 1, Ghost(gl));
                let r = self.shallowest_leaf_at(*right, depth + 1, Ghost(gr));
                assert(sub.shallowest() == (if gl.shallowest().1 <= gr.shallowest().1 {
                    (gl.shallowest().0, gl.shallowest().1 + 1)
                } else {
                    (gr.shallowest().0, gr.shallowest().1 + 1)
                }));
                match (l, r) {
                    (Some((li, ld)), Some((ri, rd))) => {
                        if ld <= rd {
                            Some((li, ld))
                        } else {
                            Some((ri, rd))
                        }
                    },
                    (Some(v), None) => Some(v),
                    (None, Some(v)) => Some(v),
                    (None, None) => None,
                }
            },
            TilingNode::Empty => {
                assert(false);
                None
            },
        }
    }

    /// Leftmost shallowest leaf of the subtree at `idx`, with its depth.
    fn shallowest_leaf(&self, idx: usize, Ghost(sub): Ghost<Shape<R>>) -> (r: Option<(usize, usize)>)
        requires
            matches(self.nodes@, sub),
            sub.idx() == idx,
            sub.height() <= usize::MAX,
        ensures
            r == Some((sub.shallowest().0, sub.shallowest().1 as usize)),
    {
        self.shallowest_leaf_at(idx, 0, Ghost(sub))
    }

    /// Direction of the split above `child`, if it has a parent.
    fn parent_direction(&self, child: usize) -> (r: Option<SplitDirection>)
        requires
            self.wf(),
            self.view() is Some,
            self.view()->0.indices().contains(child),
        ensures
            r == match self.view()->0.parent_of(child) {
                Some(p) => match self.view()->0.sub_at(p) {
                    Shape::Split { dir, .. } => Some(dir),
                    _ => None,
                },
                None => None,
            },
    {
        proof {
            self.lemma_first_parent(child);
        }
        match self.find_parent(child) {
            Some(p) => {
                proof {
                    let s = self.view()->0;
                    lemma_parent_facts(self.nodes@, s, child);
                    lemma_sub_at(self.nodes@, s, p);
                }
                match &self.nodes[p] {
                    TilingNode::Split { dir, .. } => Some(*dir),
                    _ => None,
                }
            },
            None => None,
        }
    }

    /// The leaf an insertion splits (see [`insert_target`]).
    fn insert_target_of(&self, root: usize, near: Option<u64>) -> (target: usize)
        requires
            self.wf(),
            self.root == Some(root),
        ensures
            target == insert_target(self.nodes@, self.view()->0, near),
            self.view()->0.indices().contains(target),
            self.nodes@[target as int] is Leaf,
    {
        let ghost s = self.shape@->0;
        proof {
            lemma_indices(self.nodes@, s);
            let len = self.nodes@.len();
            let idxs = s.indices();
            assert(idxs.subset_of(Set::<usize>::range(0, len as usize)));
            range_set_properties::<usize>(0, len as usize);
            lemma_len_subset(idxs, Set::<usize>::range(0, len as usize));
        }
        let target = match near {
            Some(n) => match self.find_leaf(n) {
                Some(i) => i,
                None => match self.shallowest_leaf(root, Ghost(s)) {
                    Some((i, _)) => i,
                    None => root,
                },
            },
            None => match self.shallowest_leaf(root, Ghost(s)) {
                Some((i, _)) => i,
                None => root,
            },
        };
        proof {
            if let Some(n) = near {
                let pl = |x: TilingNode<R>| is_leaf_of(x, n);
                lemma_first_where_facts(self.nodes@, pl);
                if first_leaf(self.nodes@, n) is Some {
                    assert(pl(self.nodes@[target as int]));
                    assert(!(self.nodes@[target as int] is Empty));
                }
            }
        }
        target
    }

    /// Turn the leaf at `target` into a split of `dir` whose left child is
    /// that leaf, moved to a free slot, and whose right child is a new leaf
    /// holding `surface`.
    #[verifier::rlimit(80)]
    fn split_leaf(&mut self, target: usize, surface: u64, dir: SplitDirection, half: R)
        requires
            old(self).wf(),
            old(self).view() is Some,
            old(self).view()->0.indices().contains(target),
            old(self).nodes@[target as int] is Leaf,
            old(self).arena().len() + 2 <= usize::MAX,
        ensures
            final(self).wf(),
            final(self).active == old(self).active,
            final(self).gap == old(self).gap,
            final(self).outer_gap == old(self).outer_gap,
            final(self).view() is Some,
            final(self).view()->0.idx() == old(self).view()->0.idx(),
            final(self).view()->0.erase() == inserted(old(self).view()->0, target, surface, dir, half),
            ({
                let ts = leaf_surface(old(self).view()->0.sub_at(target));
                let sl = split_slots(old(self).nodes@, ts, surface);
                &&& final(self).view() == Some(split_leaf_shape(old(self).view()->0, target, sl.0, sl.1, surface, dir, half))
                &&& final(self).nodes@ == split_arena(old(self).nodes@, target, ts, surface, dir, half)
            }),
            final(self).spec_leaves().to_multiset() =~= old(self).spec_leaves().to_multiset().insert(surface),
    {
        let ghost s = self.shape@->0;
        let ghost old_nodes = self.nodes@;
        let ghost ts = match old_nodes[target as int] {
            TilingNode::Leaf { surface } => surface,
            _ => 0,
        };
        proof {
            lemma_indices(old_nodes, s);
            lemma_leaf_at(old_nodes, s, target, ts);
        }
        let new_leaf = self.alloc_slot(TilingNode::Leaf { surface });
        let ghost nodes1 = self.nodes@;
        proof {
            let pe = |n: TilingNode<R>| n is Empty;
            lemma_first_where_facts(old_nodes, pe);
            assert(target < old_nodes.len());
            assert(nodes1[target as int] == old_nodes[target as int]);
        }
        let old_node = match &self.nodes[target] {
            TilingNode::Leaf { surface } => TilingNode::Leaf { surface: *surface },
            _ => TilingNode::Empty,
        };
        let moved = self.alloc_slot(old_node);
        let ghost nodes2 = self.nodes@;
        proof {
            let pe = |n: TilingNode<R>| n is Empty;
            lemma_first_where_facts(nodes1, pe);
            assert(nodes2.len() >= nodes1.len());
        }
        self.nodes.set(target, TilingNode::Split { dir, ratio: half, left: moved, right: new_leaf });
        proof {
            lemma_two_allocs(old_nodes, nodes1, nodes2, TilingNode::Leaf { surface }, old_node, new_leaf, moved);
            assert(old_node == TilingNode::<R>::Leaf { surface: ts });
            assert(self.nodes@ == nodes2.update(target as int, TilingNode::<R>::Split { dir, ratio: half, left: moved, right: new_leaf }));
            assert(target < old_nodes.len());
            lemma_insert_split(old_nodes, self.nodes@, s, target, ts, moved, new_leaf, surface, dir, half);
            let ns = Shape::Split {
                idx: target,
                dir,
                ratio: half,
                left: Box::new(Shape::Leaf { idx: moved, surface: ts }),
                right: Box::new(Shape::Leaf { idx: new_leaf, surface }),
            };
            lemma_replace_multiset(old_nodes, s, target, ns);
            lemma_leaf_at(old_nodes, s, target, ts);
            assert(s.sub_at(target).leaves() =~= seq![ts]);
            assert(ns->left.leaves() =~= seq![ts]);
            assert(ns->right.leaves() =~= seq![surface]);
            assert(ns.leaves() =~= seq![ts, surface]);
            lemma_ms_one(ts);
            lemma_ms_two(ts, surface);
            let x = s.replace(target, ns).leaves().to_multiset();
            let sm = s.leaves().to_multiset();
            assert forall|v: u64| #[trigger] x.count(v) == sm.insert(surface).count(v) by {
                assert(x.add(seq![ts].to_multiset()).count(v) == sm.add(seq![ts, surface].to_multiset()).count(v));
            }
            assert(x =~= sm.insert(surface));
            let newsub = Shape::Split {
                idx: target,
                dir,
                ratio: half,
                left: Box::new(Shape::Leaf { idx: moved, surface: ts }),
                right: Box::new(Shape::Leaf { idx: new_leaf, surface }),
            };
            self.shape@ = Some(s.replace(target, newsub));
            assert(self.shape@ == Some(split_leaf_shape(s, target, moved, new_leaf, surface, dir, half)));
            assert(split_slots(old_nodes, ts, surface) == (moved, new_leaf));
            assert(self.nodes@ == split_arena(old_nodes, target, ts, surface, dir, half));
        }
    }

    /// Insert `surface` by splitting the leaf holding `near` (or, when `near`
    /// is absent from the tree, the leftmost shallowest leaf). The split
    /// runs opposite to its parent's direction, horizontal at the root; the
    /// old leaf becomes the left/top child and the new one the right/bottom.
    pub fn insert(&mut self, surface: u64, near: Option<u64>, half: R)
        requires
            old(self).wf(),
            near != Some(surface),
            old(self).arena().len() + 2 <= usize::MAX,
        ensures
            final(self).wf(),
            final(self).spec_active() == old(self).spec_active(),
            final(self).spec_gap() == old(self).spec_gap(),
            final(self).spec_outer_gap() == old(self).spec_outer_gap(),
            old(self).inserted_into(*final(self), surface, near, half),
    {
        let root = match self.root {
            None => {
                let leaf = self.alloc_slot(TilingNode::Leaf { surface });
                self.root = Some(leaf);
                proof {
                    let ghost pe = |n: TilingNode<R>| n is Empty;
                    lemma_first_where_facts(old(self).nodes@, pe);
                    self.shape@ = Some(Shape::Leaf { idx: leaf, surface });
                    assert(set![leaf].contains(leaf));
                    lemma_ms_one(surface);
                    Seq::<u64>::empty().to_multiset_ensures();
                    assert(Seq::<u64>::empty().to_multiset() =~= Multiset::<u64>::empty()) by {
                        assert forall|v: u64| #[trigger] Seq::<u64>::empty().to_multiset().count(v) == 0 by {
                            assert(!Seq::<u64>::empty().contains(v));
                        }
                    }
                    assert forall|i: int| 0 <= i < self.nodes@.len() implies (#[trigger] self.nodes@[i] is Empty <==> !(
                        self.shape@ is Some && self.shape@->0.indices().contains(i as usize))) by {
                        if i != leaf as int {
                            assert(!set![leaf].contains(i as usize));
                        }
                    }
                }
                return ;
            },
            Some(r) => r,
        };
        let ghost s = self.shape@->0;
        let ghost old_nodes = self.nodes@;
        let target = self.insert_target_of(root, near);
        let dir = match self.parent_direction(target) {
            Some(d) => d.opposite(),
            None => SplitDirection::Horizontal,
        };
        proof {
            assert(dir == insert_dir(s, target));
        }
        self.split_leaf(target, surface, dir, half);
    }
    /// A copy of arena slot `i`.
    fn node_at(&self, i: usize) -> (r: TilingNode<R>)
        requires
            i < self.nodes@.len(),
        ensures
            r == self.nodes@[i as int],
    {
        match &self.nodes[i] {
            TilingNode::Split { dir, ratio, left, right } => TilingNode::Split {
                dir: *dir,
                ratio: *ratio,
                left: *left,
                right: *right,
            },
            TilingNode::Leaf { surface } => TilingNode::Leaf { surface: *surface },
            TilingNode::Empty => TilingNode::Empty,
        }
    }

    /// Replace the parent split of the (non-root) leaf at `leaf_idx` by the
    /// leaf's sibling, freeing the leaf's and the sibling's slots.
    #[verifier::rlimit(100)]
    fn collapse_parent(&mut self, leaf_idx: usize)
        requires
            old(self).wf(),
            old(self).view() is Some,
            old(self).view()->0.indices().contains(leaf_idx),
            old(self).view()->0.idx() != leaf_idx,
            old(self).nodes@[leaf_idx as int] is Leaf,
        ensures
            final(self).wf(),
            final(self).active == old(self).active,
            final(self).gap == old(self).gap,
            final(self).outer_gap == old(self).outer_gap,
            final(self).view() is Some,
            final(self).view()->0.idx() == old(self).view()->0.idx(),
            final(self).view()->0.erase() == removed(old(self).view()->0, leaf_idx),
            final(self).view() == Some(removed_shape(old(self).view()->0, leaf_idx)),
            final(self).nodes@ == removed_arena(old(self).nodes@, old(self).view()->0, leaf_idx),
            final(self).spec_leaves().to_multiset() =~= old(self).spec_leaves().to_multiset().remove(
                leaf_surface(old(self).view()->0.sub_at(leaf_idx)),
            ),
    {
        let ghost old_nodes = self.nodes@;
        proof {
            lemma_indices(self.nodes@, self.shape@->0);
        }
        proof {
            self.lemma_first_parent(leaf_idx);
            lemma_parent_facts(self.nodes@, self.shape@->0, leaf_idx);
        }
        let parent_idx = match self.find_parent(leaf_idx) {
            Some(p) => p,
            None => {
                proof {
                    assert(false);
                }
                return ;
            },
        };
        let sibling_idx = match &self.nodes[parent_idx] {
            TilingNode::Split { left, right, .. } => if *left == leaf_idx {
                *right
            } else {
                *left
            },
            _ => {
                proof {
                    assert(false);
                }
                return ;
            },
        };
        proof {
            let s = self.shape@->0;
            lemma_sub_at(self.nodes@, s, parent_idx);
            let sp = s.sub_at(parent_idx);
            assert(sibling_of(sp, leaf_idx).idx() == sibling_idx);
            lemma_indices(self.nodes@, sp);
            let sib = sibling_of(sp, leaf_idx);
            assert(matches(self.nodes@, sib));
            lemma_indices(self.nodes@, sib);
            assert(sp.indices().contains(sibling_idx));
            assert(s.indices().contains(sibling_idx));
            assert(sibling_idx < self.nodes@.len());
        }
        let sibling_node = self.node_at(sibling_idx);
        self.nodes.set(parent_idx, sibling_node);
        self.nodes.set(sibling_idx, TilingNode::Empty);
        self.nodes.set(leaf_idx, TilingNode::Empty);
        proof {
            let s = self.shape@->0;
            let sib = sibling_of(s.sub_at(parent_idx), leaf_idx);
            lemma_remove(old_nodes, self.nodes@, s, leaf_idx, parent_idx);
            let sp = s.sub_at(parent_idx);
            let ns = sib.with_idx(parent_idx);
            lemma_replace_multiset(old_nodes, s, parent_idx, ns);
            let surf = match old_nodes[leaf_idx as int] {
                TilingNode::Leaf { surface } => surface,
                _ => 0,
            };
            lemma_leaf_at(old_nodes, s, leaf_idx, surf);
            lemma_ms_one(surf);
            lemma_sub_at(old_nodes, s, parent_idx);
            let l = *sp->left;
            let r = *sp->right;
            assert(matches(old_nodes, l) && matches(old_nodes, r));
            lemma_indices(old_nodes, l);
            lemma_indices(old_nodes, r);
            let tc = if l.idx() == leaf_idx { l } else { r };
            assert(tc.idx() == leaf_idx);
            assert(matches(old_nodes, tc));
            assert(tc is Leaf) by {
                if tc is Split {
                    assert(old_nodes[leaf_idx as int] is Split);
                }
            }
            assert(tc.leaves() =~= seq![surf]);
            assert(ns.leaves() == sib.leaves());
            lemma_multiset_commutative(l.leaves(), r.leaves());
            let x = s.replace(parent_idx, ns).leaves().to_multiset();
            let sm = s.leaves().to_multiset();
            let bm = sib.leaves().to_multiset();
            if l.idx() == leaf_idx {
                assert(sp.leaves().to_multiset() =~= seq![surf].to_multiset().add(bm));
            } else {
                assert(sp.leaves().to_multiset() =~= bm.add(seq![surf].to_multiset()));
            }
            assert(sp.leaves().to_multiset() =~= bm.insert(surf));
            assert forall|v: u64| #[trigger] x.count(v) == sm.remove(surf).count(v) by {
                assert(x.add(sp.leaves().to_multiset()).count(v) == sm.add(bm).count(v));
            }
            assert(x =~= sm.remove(surf));
            self.shape@ = Some(s.replace(parent_idx, sib.with_idx(parent_idx)));
            assert(self.nodes@ =~= removed_arena(old_nodes, s, leaf_idx));
        }
    }

    /// Remove the leaf holding `surface` (the first such slot). Its sibling
    /// subtree takes the parent split's place; removing the root leaf empties
    /// the tree. Nothing happens when no leaf holds `surface`.
    pub fn remove(&mut self, surface: u64)
        requires
            old(self).wf(),
        ensures
            final(self).wf(),
            final(self).spec_active() == old(self).spec_active(),
            final(self).spec_gap() == old(self).spec_gap(),
            final(self).spec_outer_gap() == old(self).spec_outer_gap(),
            old(self).removed_into(*final(self), surface),
    {
        let leaf_idx = match self.find_leaf(surface) {
            Some(i) => i,
            None => {
                proof {
                    let pl = |x: TilingNode<R>| is_leaf_of(x, surface);
                    lemma_first_where_facts(self.nodes@, pl);
                    if self.spec_leaves().contains(surface) {
                        let s = self.shape@->0;
                        let w = lemma_leaf_witness(self.nodes@, s, surface);
                        lemma_indices(self.nodes@, s);
                        assert(pl(self.nodes@[w as int]));
                    }
                }
                return ;
            },
        };
        let ghost old_nodes = self.nodes@;
        proof {
            let pl = |x: TilingNode<R>| is_leaf_of(x, surface);
            lemma_first_where_facts(self.nodes@, pl);
            assert(pl(self.nodes@[leaf_idx as int]));
            assert(!(self.nodes@[leaf_idx as int] is Empty));
            assert(self.shape@ is Some);
            let s = self.shape@->0;
            assert(s.indices().contains(leaf_idx));
            lemma_leaf_at(self.nodes@, s, leaf_idx, surface);
            lemma_indices(self.nodes@, s);
        }
        if self.root == Some(leaf_idx) {
            self.nodes.set(leaf_idx, TilingNode::Empty);
            self.root = None;
            proof {
                let s = self.shape@->0;
                assert(s == Shape::<R>::Leaf { idx: leaf_idx, surface });
                assert(s.indices() =~= set![leaf_idx]);
                lemma_ms_one(surface);
                Seq::<u64>::empty().to_multiset_ensures();
                assert(Seq::<u64>::empty().to_multiset() =~= Multiset::<u64>::empty()) by {
                    assert forall|v: u64| #[trigger] Seq::<u64>::empty().to_multiset().count(v) == 0 by {
                        assert(!Seq::<u64>::empty().contains(v));
                    }
                }
                self.shape@ = None;
                assert forall|i: int| 0 <= i < self.nodes@.len() implies #[trigger] self.nodes@[i] is Empty by {
                    if i != leaf_idx as int {
                        assert(old_nodes[i] == self.nodes@[i]);
                        assert(!s.indices().contains(i as usize));
                    }
                }
            }
            return ;
        }
        self.collapse_parent(leaf_idx);
    }
    /// Exchange the windows of the leaves holding `a` and `b` (the first slot
    /// of each). Nothing happens when either is absent or they are the same.
    pub fn swap(&mut self, a: u64, b: u64)
        requires
            old(self).wf(),
        ensures
            final(self).wf(),
            final(self).spec_active() == old(self).spec_active(),
            final(self).spec_gap() == old(self).spec_gap(),
            final(self).spec_outer_gap() == old(self).spec_outer_gap(),
            old(self).swapped_into(*final(self), a, b),
            final(self).spec_leaves().to_multiset() =~= old(self).spec_leaves().to_multiset(),
    {
        let ghost pa = |x: TilingNode<R>| is_leaf_of(x, a);
        let ghost pb = |x: TilingNode<R>| is_leaf_of(x, b);
        proof {
            lemma_first_where_facts(self.nodes@, pa);
            lemma_first_where_facts(self.nodes@, pb);
            if self.shape@ is Some {
                let s = self.shape@->0;
                lemma_indices(self.nodes@, s);
                if s.leaves().contains(a) {
                    let w = lemma_leaf_witness(self.nodes@, s, a);
                    assert(pa(self.nodes@[w as int]));
                }
                if s.leaves().contains(b) {
                    let w = lemma_leaf_witness(self.nodes@, s, b);
                    assert(pb(self.nodes@[w as int]));
                }
            }
        }
        let a_idx = match self.find_leaf(a) {
            Some(i) => i,
            None => return ,
        };
        let b_idx = match self.find_leaf(b) {
            Some(i) => i,
            None => return ,
        };
        proof {
            assert(pa(self.nodes@[a_idx as int]));
            assert(pb(self.nodes@[b_idx as int]));
            assert(!(self.nodes@[a_idx as int] is Empty));
            assert(self.shape@ is Some);
            let s = self.shape@->0;
            lemma_leaf_at(self.nodes@, s, a_idx, a);
            lemma_leaf_at(self.nodes@, s, b_idx, b);
        }
        if a_idx == b_idx {
            return ;
        }
        let ghost n1 = self.nodes@;
        let a_node = self.node_at(a_idx);
        let b_node = self.node_at(b_idx);
        self.nodes.set(a_idx, b_node);
        let ghost n2 = self.nodes@;
        self.nodes.set(b_idx, a_node);
        proof {
            let s = self.shape@->0;
            lemma_set_leaf(n1, n2, s, a_idx, b);
            let s1 = set_leaf(s, a_idx, b);
            lemma_set_leaf(n2, self.nodes@, s1, b_idx, a);
            self.shape@ = Some(set_leaf(s1, b_idx, a));
            lemma_replace_multiset(n1, s, a_idx, Shape::Leaf { idx: a_idx, surface: b });
            assert(n2[b_idx as int] == n1[b_idx as int]);
            lemma_leaf_at(n2, s1, b_idx, b);
            lemma_replace_multiset(n2, s1, b_idx, Shape::Leaf { idx: b_idx, surface: a });
            lemma_ms_one(a);
            lemma_ms_one(b);
            let sm = s.leaves().to_multiset();
            let x1 = s1.leaves().to_multiset();
            let x2 = set_leaf(s1, b_idx, a).leaves().to_multiset();
            assert forall|v: u64| #[trigger] x2.count(v) == sm.count(v) by {
                assert(x1.add(seq![a].to_multiset()).count(v) == sm.add(seq![b].to_multiset()).count(v));
                assert(x2.add(seq![b].to_multiset()).count(v) == x1.add(seq![a].to_multiset()).count(v));
            }
            assert(x2 =~= sm);
            assert forall|i: int| 0 <= i < self.nodes@.len() implies (#[trigger] self.nodes@[i] is Empty <==> !(
                self.shape@ is Some && self.shape@->0.indices().contains(i as usize))) by {
                if i != a_idx as int && i != b_idx as int {
                    assert(self.nodes@[i] == n1[i]);
                }
            }
        }
    }
    /// Direction of the split at arena slot `idx`; `None` for any other slot.
    pub fn split_dir(&self, idx: usize) -> (r: Option<SplitDirection>)
        ensures
            r == if idx < self.arena().len() && self.arena()[idx as int] is Split {
                Some(self.arena()[idx as int]->dir)
            } else {
                None
            },
    {
        if idx >= self.nodes.len() {
            return None;
        }
        match &self.nodes[idx] {
            TilingNode::Split { dir, .. } => Some(*dir),
            _ => None,
        }
    }

    /// Ratio of the split at arena slot `idx`; `None` for any other slot.
    pub fn split_ratio(&self, idx: usize) -> (r: Option<R>)
        ensures
            r == if idx < self.arena().len() && self.arena()[idx as int] is Split {
                Some(self.arena()[idx as int]->ratio)
            } else {
                None
            },
    {
        if idx >= self.nodes.len() {
            return None;
        }
        match &self.nodes[idx] {
            TilingNode::Split { ratio, .. } => Some(*ratio),
            _ => None,
        }
    }

    /// Set the ratio of the split at arena slot `idx` to `ratio`; any other
    /// slot is left alone.
    pub fn set_split_ratio(&mut self, idx: usize, ratio: R)
        requires
            old(self).wf(),
        ensures
            final(self).wf(),
            final(self).spec_active() == old(self).spec_active(),
            final(self).spec_gap() == old(self).spec_gap(),
            final(self).spec_outer_gap() == old(self).spec_outer_gap(),
            final(self).spec_leaves() == old(self).spec_leaves(),
            if idx < old(self).arena().len() && old(self).arena()[idx as int] is Split {
                &&& final(self).view() == Some(set_ratio(old(self).view()->0, idx, ratio))
                &&& final(self).arena() == old(self).arena().update(
                    idx as int,
                    TilingNode::Split {
                        dir: old(self).arena()[idx as int]->dir,
                        ratio,
                        left: old(self).arena()[idx as int]->left,
                        right: old(self).arena()[idx as int]->right,
                    },
                )
            } else {
                final(self).view() == old(self).view() && final(self).arena() == old(self).arena()
            },
    {
        if idx >= self.nodes.len() {
            return ;
        }
        let node = self.node_at(idx);
        if let TilingNode::Split { dir, left, right, .. } = node {
            let ghost n1 = self.nodes@;
            self.nodes.set(idx, TilingNode::Split { dir, ratio, left, right });
            proof {
                assert(!(n1[idx as int] is Empty));
                let s = self.shape@->0;
                lemma_set_ratio(n1, self.nodes@, s, idx, ratio);
                self.shape@ = Some(set_ratio(s, idx, ratio));
                assert forall|i: int| 0 <= i < self.nodes@.len() implies (#[trigger] self.nodes@[i] is Empty <==> !(
                    self.shape@ is Some && self.shape@->0.indices().contains(i as usize))) by {
                    if i != idx as int {
                        assert(self.nodes@[i] == n1[i]);
                    }
                }
            }
        }
    }

    /// Whether a leaf of the subtree at `idx` holds `surface`.
    fn subtree_contains(&self, idx: usize, surface: u64, Ghost(sub): Ghost<Shape<R>>) -> (r: bool)
        requires
            matches(self.nodes@, sub),
            sub.idx() == idx,
        ensures
            r == sub.leaves().contains(surface),
        decreases sub,
    {
        match &self.nodes[idx] {
            TilingNode::Leaf { surface: s } => {
                proof {
                    assert(sub.leaves() =~= seq![*s]);
                    if *s == surface {
                        assert(sub.leaves()[0] == surface);
                    }
                }
                *s == surface
            },
            TilingNode::Split { left, right, .. } => {
                let ghost gl: Shape<R> = *sub->left;
                let ghost gr: Shape<R> = *sub->right;
                let in_left = self.subtree_contains(*left, surface, Ghost(gl));
                let in_right = self.subtree_contains(*right, surface, Ghost(gr));
                proof {
                    lemma_seq_concat_contains(gl.leaves(), gr.leaves(), surface);
                }
                in_left || in_right
            },
            TilingNode::Empty => false,
        }
    }

    /// Whether arena index `t` lies in the subtree at `idx`.
    fn subtree_has_index(&self, idx: usize, t: usize, Ghost(sub): Ghost<Shape<R>>) -> (r: bool)
        requires
            matches(self.nodes@, sub),
            sub.idx() == idx,
        ensures
            r == sub.indices().contains(t),
        decreases sub,
    {
        if idx == t {
            return true;
        }
        match &self.nodes[idx] {
            TilingNode::Leaf { .. } => false,
            TilingNode::Split { left, right, .. } => {
                let ghost gl: Shape<R> = *sub->left;
                let ghost gr: Shape<R> = *sub->right;
                let in_left = self.subtree_has_index(*left, t, Ghost(gl));
                let in_right = self.subtree_has_index(*right, t, Ghost(gr));
                in_left || in_right
            },
            TilingNode::Empty => false,
        }
    }
    fn ancestor_at(
        &self,
        idx: usize,
        t: usize,
        surface: u64,
        want_dir: SplitDirection,
        want_left: bool,
        Ghost(sub): Ghost<Shape<R>>,
    ) -> (r: Option<usize>)
        requires
            matches(self.nodes@, sub),
            sub.idx() == idx,
        ensures
            r == ancestor_split(sub, t, surface, want_dir, want_left),
        decreases sub,
    {
        match &self.nodes[idx] {
            TilingNode::Split { dir, left, right, .. } => {
                let ghost gl: Shape<R> = *sub->left;
                let ghost gr: Shape<R> = *sub->right;
                let in_l = self.subtree_has_index(*left, t, Ghost(gl));
                let in_r = if in_l {
                    false
                } else {
                    self.subtree_has_index(*right, t, Ghost(gr))
                };
                if !in_l && !in_r {
                    return None;
                }
                let below = if in_l {
                    self.ancestor_at(*left, t, surface, want_dir, want_left, Ghost(gl))
                } else {
                    self.ancestor_at(*right, t, surface, want_dir, want_left, Ghost(gr))
                };
                if below.is_some() {
                    return below;
                }
                let left_side = self.subtree_contains(*left, surface, Ghost(gl));
                if *dir == want_dir && left_side == want_left {
                    Some(idx)
                } else {
                    None
                }
            },
            _ => None,
        }
    }

    /// The nearest split above the leaf holding `surface` that runs in
    /// `want_dir` and has `surface` in its left/top child exactly when
    /// `want_left_side` is set (edge-drag resizing picks the split this way).
    pub fn find_ancestor_split(&self, surface: u64, want_dir: SplitDirection, want_left_side: bool) -> (r: Option<usize>)
        requires
            self.wf(),
        ensures
            r == if self.spec_leaves().contains(surface) {
                ancestor_split(
                    self.view()->0,
                    first_leaf(self.arena(), surface)->0 as usize,
                    surface,
                    want_dir,
                    want_left_side,
                )
            } else {
                None
            },
    {
        let ghost pl = |x: TilingNode<R>| is_leaf_of(x, surface);
        proof {
            lemma_first_where_facts(self.nodes@, pl);
            if self.spec_leaves().contains(surface) {
                let s = self.shape@->0;
                let w = lemma_leaf_witness(self.nodes@, s, surface);
                lemma_indices(self.nodes@, s);
                assert(pl(self.nodes@[w as int]));
            }
        }
        let leaf = match self.find_leaf(surface) {
            Some(i) => i,
            None => return None,
        };
        proof {
            assert(pl(self.nodes@[leaf as int]));
            assert(!(self.nodes@[leaf as int] is Empty));
            lemma_leaf_at(self.nodes@, self.shape@->0, leaf, surface);
        }
        let root = match self.root {
            Some(r) => r,
            None => return None,
        };
        self.ancestor_at(root, leaf, surface, want_dir, want_left_side, Ghost(self.shape@->0))
    }

    /// Adjust the split above the leaf holding `surface`: its ratio becomes
    /// `adjust(ratio, in_left)`, where `in_left` tells whether `surface` is
    /// in the split's left/top child. Nothing happens for an absent window
    /// or a lone root leaf.
    pub fn resize_split<F: Fn(R, bool) -> R>(&mut self, surface: u64, adjust: F)
        requires
            old(self).wf(),
            forall|r: R, b: bool| call_requires(adjust, (r, b)),
        ensures
            final(self).wf(),
            final(self).spec_active() == old(self).spec_active(),
            final(self).spec_gap() == old(self).spec_gap(),
            final(self).spec_outer_gap() == old(self).spec_outer_gap(),
            final(self).spec_leaves() == old(self).spec_leaves(),
            ({
                let s = old(self).view()->0;
                let t = first_leaf(old(self).arena(), surface)->0 as usize;
                if old(self).spec_leaves().contains(surface) && t != s.idx() {
                    let p = s.parent_of(t)->0;
                    let sp = s.sub_at(p);
                    exists|r: R|
                        #[trigger] call_ensures(adjust, (sp->ratio, sp->left.leaves().contains(surface)), r)
                            && final(self).view() == Some(set_ratio(s, p, r))
                } else {
                    final(self).view() == old(self).view() && final(self).arena() == old(self).arena()
                }
            }),
    {
        let ghost pl = |x: TilingNode<R>| is_leaf_of(x, surface);
        proof {
            lemma_first_where_facts(self.nodes@, pl);
            if self.spec_leaves().contains(surface) {
                let s = self.shape@->0;
                let w = lemma_leaf_witness(self.nodes@, s, surface);
                lemma_indices(self.nodes@, s);
                assert(pl(self.nodes@[w as int]));
            }
        }
        let leaf = match self.find_leaf(surface) {
            Some(i) => i,
            None => return ,
        };
        proof {
            assert(pl(self.nodes@[leaf as int]));
            assert(!(self.nodes@[leaf as int] is Empty));
            let s = self.shape@->0;
            lemma_leaf_at(self.nodes@, s, leaf, surface);
            lemma_indices(self.nodes@, s);
            self.lemma_first_parent(leaf);
        }
        let parent = match self.find_parent(leaf) {
            Some(p) => p,
            None => return ,
        };
        proof {
            let s = self.shape@->0;
            lemma_parent_facts(self.nodes@, s, leaf);
            lemma_sub_at(self.nodes@, s, parent);
        }
        let (left_idx, ratio) = match &self.nodes[parent] {
            TilingNode::Split { left, ratio, .. } => (*left, *ratio),
            _ => return ,
        };
        let ghost sp = self.shape@->0.sub_at(parent);
        let is_left = self.subtree_contains(left_idx, surface, Ghost(*sp->left));
        let new_ratio = adjust(ratio, is_left);
        self.set_split_ratio(parent, new_ratio);
    }
    fn layout_node<F: Fn(i32, R) -> i32>(
        &self,
        idx: usize,
        area: Rect,
        out: &mut Vec<(u64, Rect)>,
        scale: &F,
        Ghost(sub): Ghost<Shape<R>>,
    )
        requires
            matches(self.nodes@, sub),
            sub.idx() == idx,
            0 <= self.gap,
            scale_ok(*scale),
            layout_fits(sub, area, *scale, self.gap),
        ensures
            final(out)@ == old(out)@ + layout_of(sub, area, *scale, self.gap),
        decreases sub,
    {
        match &self.nodes[idx] {
            TilingNode::Leaf { surface } => {
                out.push((*surface, area));
            },
            TilingNode::Split { dir, ratio, left, right } => {
                let len = match dir {
                    SplitDirection::Horizontal => area.w,
                    SplitDirection::Vertical => area.h,
                };
                let first = scale(len, *ratio);
                proof {
                    lemma_scaled(*scale, len, *ratio, first);
                }
                let (lr, rr) = split_area(area, *dir, first, self.gap);
                let ghost mid = out@;
                self.layout_node(*left, lr, out, scale, Ghost(*sub->left));
                let ghost mid2 = out@;
                self.layout_node(*right, rr, out, scale, Ghost(*sub->right));
                proof {
                    let a = layout_of(*sub->left, lr, *scale, self.gap);
                    let b = layout_of(*sub->right, rr, *scale, self.gap);
                    assert(out@ =~= old(out)@ + (a + b));
                }
            },
            TilingNode::Empty => {},
        }
    }

    /// Each leaf's window with its rectangle when the tree is laid out in
    /// `area` (already inset by the outer gap), left to right. `scale(len,
    /// ratio)` gives a split's first child its share of `len`.
    pub fn compute_layout<F: Fn(i32, R) -> i32>(&self, area: Rect, scale: F) -> (r: Vec<(u64, Rect)>)
        requires
            self.wf(),
            0 <= self.spec_gap(),
            scale_ok(scale),
            self.view() is Some ==> layout_fits(self.view()->0, area, scale, self.spec_gap()),
        ensures
            r@ == match self.view() {
                None => Seq::empty(),
                Some(s) => layout_of(s, area, scale, self.spec_gap()),
            },
    {
        let mut result: Vec<(u64, Rect)> = Vec::new();
        if let Some(root) = self.root {
            self.layout_node(root, area, &mut result, &scale, Ghost(self.shape@->0));
            proof {
                assert(result@ =~= layout_of(self.shape@->0, area, scale, self.gap));
            }
        }
        result
    }
    fn node_rect_walk<F: Fn(i32, R) -> i32>(
        &self,
        idx: usize,
        area: Rect,
        target: usize,
        scale: &F,
        Ghost(sub): Ghost<Shape<R>>,
    ) -> (r: Option<Rect>)
        requires
            matches(self.nodes@, sub),
            sub.idx() == idx,
            0 <= self.gap,
            scale_ok(*scale),
            layout_fits(sub, area, *scale, self.gap),
        ensures
            r == rect_of(sub, area, *scale, self.gap, target),
        decreases sub,
    {
        if idx == target {
            return Some(area);
        }
        match &self.nodes[idx] {
            TilingNode::Split { dir, ratio, left, right } => {
                let len = match dir {
                    SplitDirection::Horizontal => area.w,
                    SplitDirection::Vertical => area.h,
                };
                let first = scale(len, *ratio);
                proof {
                    lemma_scaled(*scale, len, *ratio, first);
                }
                let (lr, rr) = split_area(area, *dir, first, self.gap);
                match self.node_rect_walk(*left, lr, target, scale, Ghost(*sub->left)) {
                    Some(r) => Some(r),
                    None => self.node_rect_walk(*right, rr, target, scale, Ghost(*sub->right)),
                }
            },
            _ => None,
        }
    }

    /// The rectangle of the node at arena slot `target` when the tree is
    /// laid out in `area`; `None` when no node of the tree sits there.
    pub fn node_rect<F: Fn(i32, R) -> i32>(&self, target: usize, area: Rect, scale: F) -> (r: Option<Rect>)
        requires
            self.wf(),
            0 <= self.spec_gap(),
            scale_ok(scale),
            self.view() is Some ==> layout_fits(self.view()->0, area, scale, self.spec_gap()),
        ensures
            r == match self.view() {
                None => None,
                Some(s) => rect_of(s, area, scale, self.spec_gap(), target),
            },
    {
        match self.root {
            Some(root) => self.node_rect_walk(root, area, target, &scale, Ghost(self.shape@->0)),
            None => None,
        }
    }

    fn seam_at_walk<F: Fn(i32, R) -> i32>(
        &self,
        idx: usize,
        area: Rect,
        px: i32,
        py: i32,
        grab_radius: i32,
        scale: &F,
        Ghost(sub): Ghost<Shape<R>>,
    ) -> (r: Option<(usize, Rect)>)
        requires
            matches(self.nodes@, sub),
            sub.idx() == idx,
            0 <= self.gap,
            scale_ok(*scale),
            layout_fits(sub, area, *scale, self.gap),
        ensures
            r == seam_of(sub, area, *scale, self.gap, px, py, grab_radius),
        decreases sub,
    {
        match &self.nodes[idx] {
            TilingNode::Split { dir, ratio, left, right } => {
                let len = match dir {
                    SplitDirection::Horizontal => area.w,
                    SplitDirection::Vertical => area.h,
                };
                let first = scale(len, *ratio);
                proof {
                    lemma_scaled(*scale, len, *ratio, first);
                }
                let (lr, rr) = split_area(area, *dir, first, self.gap);
                let child = match self.seam_at_walk(*left, lr, px, py, grab_radius, scale, Ghost(*sub->left)) {
                    Some(c) => Some(c),
                    None => self.seam_at_walk(*right, rr, px, py, grab_radius, scale, Ghost(*sub->right)),
                };
                if child.is_some() {
                    return child;
                }
                let half_gap = (self.gap / 2) as i64;
                let lw = (first as i64) - half_gap;
                let grab = grab_radius as i64;
                let hit = match dir {
                    SplitDirection::Horizontal => {
                        let seam = area.x as i64 + lw + half_gap;
                        seam - grab <= px as i64 && px as i64 <= seam + grab && area.y as i64 <= py as i64
                            && py as i64 <= area.y as i64 + area.h as i64
                    },
                    SplitDirection::Vertical => {
                        let seam = area.y as i64 + lw + half_gap;
                        seam - grab <= py as i64 && py as i64 <= seam + grab && area.x as i64 <= px as i64
                            && px as i64 <= area.x as i64 + area.w as i64
                    },
                };
                if hit {
                    Some((idx, area))
                } else {
                    None
                }
            },
            _ => None,
        }
    }

    /// The deepest split whose seam, widened by `grab_radius` on each side,
    /// holds the point (`px`, `py`), with the area that split occupies.
    pub fn seam_at<F: Fn(i32, R) -> i32>(&self, px: i32, py: i32, area: Rect, grab_radius: i32, scale: F) -> (r: Option<(usize, Rect)>)
        requires
            self.wf(),
            0 <= self.spec_gap(),
            scale_ok(scale),
            self.view() is Some ==> layout_fits(self.view()->0, area, scale, self.spec_gap()),
        ensures
            r == match self.view() {
                None => None,
                Some(s) => seam_of(s, area, scale, self.spec_gap(), px, py, grab_radius),
            },
    {
        match self.root {
            Some(root) => self.seam_at_walk(root, area, px, py, grab_radius, &scale, Ghost(self.shape@->0)),
            None => None,
        }
    }
    /// The window nearest to `surface`'s tile in direction `dir` when the
    /// tree is laid out in `area` (see [`adjacent_in_layout`]).
    pub fn find_adjacent<F: Fn(i32, R) -> i32>(&self, surface: u64, area: Rect, dir: AdjacentDir, scale: F) -> (r: Option<u64>)
        requires
            self.wf(),
            0 <= self.spec_gap(),
            scale_ok(scale),
            self.view() is Some ==> layout_fits(self.view()->0, area, scale, self.spec_gap()),
        ensures
            r == adjacent_in(
                match self.view() {
                    None => Seq::empty(),
                    Some(s) => layout_of(s, area, scale, self.spec_gap()),
                },
                surface,
                dir,
            ),
    {
        let layout = self.compute_layout(area, scale);
        adjacent_in_layout(&layout, surface, dir)
    }
}

} // verus!
