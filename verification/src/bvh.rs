//! Bounding volume hierarchy over key-space boxes.
//!
//! The tree is an arena of nodes: a node is either a leaf holding one object
//! handle, or an internal node naming its two children by index, and every
//! node carries the bounding box of its subtree.  Construction follows the
//! classic recipe: pick a split axis at random, sort the object range by the
//! minimum corner of each object's box along that axis, split at the midpoint
//! and recurse, building each parent's box as the surrounding box of its
//! children.  The hierarchy invariant — a node's box contains the box of
//! every object below it — is what lets a traversal that fails a box test
//! skip the whole subtree.

use vstd::prelude::*;
use vstd::multiset::Multiset;
use vstd::seq_lib::lemma_multiset_commutative;
use vstd::seq_lib::group_to_multiset_ensures;
use crate::aabb::{Aabb, spec_surrounding, lemma_surrounding_box_symmetric,
    lemma_contains_box_trans};

verus! {

/// A handle to one of the renderer's objects: the renderer's index for it,
/// and its bounding box in key space.
#[derive(Clone, Copy, Debug, PartialEq, Eq, Structural)]
pub struct Object {
    pub id: usize,
    pub bbox: Aabb,
}

/// What a node is: a leaf owning one object, or an internal node with two
/// children named by arena index.
#[derive(Clone, Copy, Debug)]
pub enum NodeKind {
    Leaf(Object),
    Internal(usize, usize),
}

/// One arena slot: the node's kind and the bounding box of its subtree.
#[derive(Clone, Copy, Debug)]
pub struct Node {
    pub kind: NodeKind,
    pub bbox: Aabb,
}

/// The sort key of an object along `axis`: the minimum corner of its box.
pub open spec fn axis_key(o: Object, axis: int) -> u64 {
    o.bbox.min.spec_axis(axis)
}

/// The objects in `s[lo..hi]` are ordered by their key along `axis`.
pub open spec fn sorted_range(s: Seq<Object>, lo: int, hi: int, axis: int) -> bool {
    forall|p: int, q: int|
        #![trigger axis_key(s[p], axis), axis_key(s[q], axis)]
        lo <= p <= q < hi ==> axis_key(s[p], axis) <= axis_key(s[q], axis)
}

/// Well-formedness of the subtree rooted at `i`: children sit strictly
/// earlier in the arena, a leaf's box is its object's box, and an internal
/// node's box is the surrounding box of its children's boxes.
pub open spec fn wf_node(nodes: Seq<Node>, i: int) -> bool
    decreases i,
{
    &&& 0 <= i < nodes.len()
    &&& match nodes[i].kind {
        NodeKind::Leaf(o) => nodes[i].bbox == o.bbox,
        NodeKind::Internal(l, r) => {
            &&& (l as int) < i
            &&& (r as int) < i
            &&& wf_node(nodes, l as int)
            &&& wf_node(nodes, r as int)
            &&& nodes[i].bbox == spec_surrounding(nodes[l as int].bbox, nodes[r as int].bbox)
        },
    }
}

/// The multiset of objects at the leaves of the subtree rooted at `i`.
pub open spec fn subtree_leaves(nodes: Seq<Node>, i: int) -> Multiset<Object>
    decreases i,
{
    if 0 <= i < nodes.len() {
        match nodes[i].kind {
            NodeKind::Leaf(o) => Multiset::empty().insert(o),
            NodeKind::Internal(l, r) => {
                if (l as int) < i && (r as int) < i {
                    subtree_leaves(nodes, l as int).add(subtree_leaves(nodes, r as int))
                } else {
                    Multiset::empty()
                }
            },
        }
    } else {
        Multiset::empty()
    }
}

/// `m` lies in the subtree rooted at `i`.
pub open spec fn in_subtree(nodes: Seq<Node>, m: int, i: int) -> bool
    decreases i,
{
    if 0 <= i < nodes.len() {
        m == i || match nodes[i].kind {
            NodeKind::Leaf(_) => false,
            NodeKind::Internal(l, r) => {
                ||| (l as int) < i && in_subtree(nodes, m, l as int)
                ||| (r as int) < i && in_subtree(nodes, m, r as int)
            },
        }
    } else {
        false
    }
}

/// Growing the arena to the right disturbs neither well-formedness nor the
/// leaves of an existing subtree.
pub proof fn lemma_grow_prefix(n1: Seq<Node>, n2: Seq<Node>, i: int)
    requires
        wf_node(n1, i),
        n1.len() <= n2.len(),
        forall|j: int| 0 <= j < n1.len() ==> n2[j] == n1[j],
    ensures
        wf_node(n2, i),
        subtree_leaves(n2, i) == subtree_leaves(n1, i),
    decreases i,
{
    match n1[i].kind {
        NodeKind::Leaf(_) => {},
        NodeKind::Internal(l, r) => {
            lemma_grow_prefix(n1, n2, l as int);
            lemma_grow_prefix(n1, n2, r as int);
        },
    }
}

/// The hierarchy invariant: a well-formed node's box contains the box of
/// every object at a leaf below it.
pub proof fn lemma_node_box_covers(nodes: Seq<Node>, i: int, o: Object)
    requires
        wf_node(nodes, i),
        subtree_leaves(nodes, i).count(o) > 0,
    ensures
        nodes[i].bbox.contains_box(o.bbox),
    decreases i,
{
    broadcast use vstd::multiset::group_multiset_axioms;

    match nodes[i].kind {
        NodeKind::Leaf(p) => {
            assert(o == p);
        },
        NodeKind::Internal(l, r) => {
            lemma_surrounding_box_symmetric(nodes[l as int].bbox, nodes[r as int].bbox);
            if subtree_leaves(nodes, l as int).count(o) > 0 {
                lemma_node_box_covers(nodes, l as int, o);
                lemma_contains_box_trans(nodes[i].bbox, nodes[l as int].bbox, o.bbox);
            } else {
                lemma_node_box_covers(nodes, r as int, o);
                lemma_contains_box_trans(nodes[i].bbox, nodes[r as int].bbox, o.bbox);
            }
        },
    }
}

/// Swapping two positions of a sequence leaves its multiset unchanged.
proof fn lemma_swap_multiset(s: Seq<Object>, i: int, j: int)
    requires
        0 <= i < s.len(),
        0 <= j < s.len(),
    ensures
        s.update(i, s[j]).update(j, s[i]).to_multiset() == s.to_multiset(),
{
    broadcast use vstd::multiset::group_multiset_axioms;
    broadcast use group_to_multiset_ensures;
    broadcast use vstd::seq_lib::to_multiset_update;

    if i == j {
        assert(s.update(i, s[j]).update(j, s[i]) =~= s);
    } else {
        let s1 = s.update(i, s[j]);
        assert(s1[j] == s[j]);
        assert(s.contains(s[i]));
        assert(s.to_multiset().count(s[i]) > 0);
        assert(s1.update(j, s[i]).to_multiset() =~= s.to_multiset());
    }
}

/// Relies on `rand::Rng::gen_range` over the range `0..3`, which draws a
/// value of that nonempty range from the thread-local generator.  Nothing
/// more is assumed of the draw than that it lies below 3.
#[verifier::external_body]
fn random_axis() -> (axis: usize)
    ensures
        axis < 3,
{
    rand::Rng::gen_range(&mut rand::thread_rng(), 0..3)
}

/// Sort `objs[lo..hi]` by the key along `axis` (insertion sort by adjacent
/// swaps).  The rest of the vector is untouched and the range keeps its
/// multiset of objects.
fn sort_range(objs: &mut Vec<Object>, lo: usize, hi: usize, axis: usize)
    requires
        lo <= hi <= old(objs).len(),
        axis < 3,
    ensures
        final(objs).len() == old(objs).len(),
        forall|k: int|
            0 <= k < old(objs)@.len() && !(lo <= k < hi) ==> final(objs)@[k] == old(objs)@[k],
        final(objs)@.subrange(lo as int, hi as int).to_multiset() == old(objs)@.subrange(
            lo as int,
            hi as int,
        ).to_multiset(),
        sorted_range(final(objs)@, lo as int, hi as int, axis as int),
{
    if hi - lo < 2 {
        return ;
    }
    let mut i = lo + 1;
    while i < hi
        invariant
            lo < i <= hi <= objs.len(),
            objs.len() == old(objs).len(),
            axis < 3,
            forall|k: int|
                0 <= k < old(objs)@.len() && !(lo <= k < hi) ==> objs@[k] == old(objs)@[k],
            objs@.subrange(lo as int, hi as int).to_multiset() == old(objs)@.subrange(
                lo as int,
                hi as int,
            ).to_multiset(),
            sorted_range(objs@, lo as int, i as int, axis as int),
        decreases hi - i,
    {
        let mut j = i;
        while j > lo && objs[j - 1].bbox.min.axis(axis) > objs[j].bbox.min.axis(axis)
            invariant
                lo <= j <= i < hi <= objs.len(),
                objs.len() == old(objs).len(),
                axis < 3,
                forall|k: int|
                    0 <= k < old(objs)@.len() && !(lo <= k < hi) ==> objs@[k] == old(objs)@[k],
                objs@.subrange(lo as int, hi as int).to_multiset() == old(objs)@.subrange(
                    lo as int,
                    hi as int,
                ).to_multiset(),
                sorted_range(objs@, lo as int, j as int, axis as int),
                sorted_range(objs@, j as int, i + 1 as int, axis as int),
                forall|p: int, q: int|
                    #![trigger axis_key(objs@[p], axis as int), axis_key(objs@[q], axis as int)]
                    lo <= p < j && j < q < i + 1 ==> axis_key(objs@[p], axis as int) <= axis_key(
                        objs@[q],
                        axis as int,
                    ),
            decreases j,
        {
            let ghost pre = objs@;
            let a = objs[j - 1];
            let b = objs[j];
            objs.set(j - 1, b);
            objs.set(j, a);
            proof {
                let lo_i = lo as int;
                let hi_i = hi as int;
                let ji = j as int;
                assert(objs@ == pre.update(ji - 1, b).update(ji, a));
                assert(objs@.subrange(lo_i, hi_i) =~= pre.subrange(lo_i, hi_i).update(
                    ji - 1 - lo_i,
                    b,
                ).update(ji - lo_i, a));
                let sub = pre.subrange(lo_i, hi_i);
                assert(sub[ji - 1 - lo_i] == a && sub[ji - lo_i] == b);
                lemma_swap_multiset(sub, ji - 1 - lo_i, ji - lo_i);
            }
            j = j - 1;
        }
        proof {
            let ji = j as int;
            let ii = i as int;
            assert forall|p: int, q: int|
                lo <= p <= q < ii + 1 implies axis_key(objs@[p], axis as int) <= axis_key(
                objs@[q],
                axis as int,
            ) by {
                if p < ji && q == ji && ji > lo {
                    assert(axis_key(objs@[ji - 1], axis as int) <= axis_key(objs@[ji], axis as int));
                    assert(axis_key(objs@[p], axis as int) <= axis_key(objs@[ji - 1], axis as int));
                }
            }
        }
        i = i + 1;
    }
}

/// Build the subtree for `objs[lo..hi]` into the arena and return the index
/// of its root.  The already-built prefix of the arena is untouched, the
/// object range keeps its multiset, and the new root's leaves are exactly
/// the objects of the range.
fn build_range(nodes: &mut Vec<Node>, objs: &mut Vec<Object>, lo: usize, hi: usize) -> (root:
    usize)
    requires
        lo < hi <= old(objs).len(),
    ensures
        final(objs).len() == old(objs).len(),
        forall|k: int|
            0 <= k < old(objs)@.len() && !(lo <= k < hi) ==> final(objs)@[k] == old(objs)@[k],
        final(objs)@.subrange(lo as int, hi as int).to_multiset() == old(objs)@.subrange(
            lo as int,
            hi as int,
        ).to_multiset(),
        final(nodes).len() == old(nodes).len() + 2 * (hi - lo) - 1,
        forall|k: int| 0 <= k < old(nodes)@.len() ==> final(nodes)@[k] == old(nodes)@[k],
        root == final(nodes).len() - 1,
        wf_node(final(nodes)@, root as int),
        subtree_leaves(final(nodes)@, root as int) == old(objs)@.subrange(
            lo as int,
            hi as int,
        ).to_multiset(),
    decreases hi - lo,
{
    broadcast use group_to_multiset_ensures;

    if hi - lo == 1 {
        let o = objs[lo];
        nodes.push(Node { kind: NodeKind::Leaf(o), bbox: o.bbox });
        let root = nodes.len() - 1;
        proof {
            let sub = objs@.subrange(lo as int, hi as int);
            assert(sub =~= Seq::empty().push(o));
            assert(Seq::<Object>::empty().to_multiset() =~= Multiset::empty());
            assert(sub.to_multiset() =~= Multiset::empty().insert(o));
        }
        root
    } else {
        let axis = random_axis();
        sort_range(objs, lo, hi, axis);
        let ghost o1 = objs@;
        let mid = lo + (hi - lo) / 2;
        assert(lo < mid < hi);
        let left = build_range(nodes, objs, lo, mid);
        let ghost o2 = objs@;
        let ghost n1 = nodes@;
        let right = build_range(nodes, objs, mid, hi);
        let ghost o3 = objs@;
        let ghost n2 = nodes@;
        let left_box = nodes[left].bbox;
        let right_box = nodes[right].bbox;
        nodes.push(
            Node {
                kind: NodeKind::Internal(left, right),
                bbox: Aabb::surrounding_box(left_box, right_box),
            },
        );
        let root = nodes.len() - 1;
        proof {
            let lo_i = lo as int;
            let mid_i = mid as int;
            let hi_i = hi as int;
            let n3 = nodes@;
            // The two subtrees survive the later growth of the arena.
            lemma_grow_prefix(n1, n2, left as int);
            lemma_grow_prefix(n2, n3, left as int);
            lemma_grow_prefix(n2, n3, right as int);
            assert(wf_node(n3, root as int));
            // The right build left the left half alone, and vice versa.
            assert(o2.subrange(lo_i, mid_i) == o3.subrange(lo_i, mid_i)) by {
                assert(o2.subrange(lo_i, mid_i) =~= o3.subrange(lo_i, mid_i));
            }
            assert(o2.subrange(mid_i, hi_i) == o1.subrange(mid_i, hi_i)) by {
                assert(o2.subrange(mid_i, hi_i) =~= o1.subrange(mid_i, hi_i));
            }
            // Leaves of the new root: both halves together.
            assert(subtree_leaves(n3, root as int) == subtree_leaves(n3, left as int).add(
                subtree_leaves(n3, right as int),
            ));
            lemma_multiset_commutative(o1.subrange(lo_i, mid_i), o1.subrange(mid_i, hi_i));
            assert(o1.subrange(lo_i, mid_i) + o1.subrange(mid_i, hi_i) =~= o1.subrange(
                lo_i,
                hi_i,
            ));
            assert(subtree_leaves(n3, root as int) == o1.subrange(lo_i, hi_i).to_multiset());
            // The range as it now stands is still the same multiset.
            lemma_multiset_commutative(o3.subrange(lo_i, mid_i), o3.subrange(mid_i, hi_i));
            assert(o3.subrange(lo_i, mid_i) + o3.subrange(mid_i, hi_i) =~= o3.subrange(
                lo_i,
                hi_i,
            ));
            assert(o3.subrange(lo_i, hi_i).to_multiset() == o1.subrange(lo_i, hi_i).to_multiset());
        }
        root
    }
}

/// The bounding volume hierarchy: an arena of nodes whose last entry is the
/// root.
#[derive(Debug)]
pub struct Bvh {
    pub nodes: Vec<Node>,
}

impl Bvh {
    /// Index of the root node.
    pub open spec fn root_idx(self) -> int {
        self.nodes@.len() - 1
    }

    /// The whole tree is well formed.
    pub open spec fn wf(self) -> bool {
        self.nodes@.len() >= 1 && wf_node(self.nodes@, self.root_idx())
    }

    /// The multiset of objects at the leaves of the tree.
    pub open spec fn leaves(self) -> Multiset<Object> {
        subtree_leaves(self.nodes@, self.root_idx())
    }

    /// Build a hierarchy over a nonempty collection of objects.  The tree is
    /// well formed — so every node's box contains the boxes of all objects
    /// below it — its leaves hold exactly the given objects, and it has one
    /// leaf per object and one internal node per split.
    pub fn new(objects: Vec<Object>) -> (bvh: Bvh)
        requires
            objects.len() >= 1,
        ensures
            bvh.wf(),
            bvh.leaves() == objects@.to_multiset(),
            bvh.nodes@.len() == 2 * objects@.len() - 1,
    {
        let mut nodes: Vec<Node> = Vec::new();
        let mut objs = objects;
        let ghost all = objs@;
        let n = objs.len();
        build_range(&mut nodes, &mut objs, 0, n);
        proof {
            assert(all.subrange(0, n as int) =~= all);
        }
        Bvh { nodes }
    }

    /// The number of nodes in the arena.
    pub fn node_count(&self) -> (n: usize)
        ensures
            n == self.nodes@.len(),
    {
        self.nodes.len()
    }
}

} // verus!
