//! Traversal of the bounding volume hierarchy.
//!
//! The numeric half of a traversal — does this ray meet this box, where does
//! it meet this object — belongs to the renderer.  The discrete half — which
//! nodes to visit, which subtrees a failed box test discards, which of the
//! reported hits is the closest — is decided here, and proved correct.
//!
//! A [`Search`] walks one ray through the tree as a question-and-answer
//! machine: [`Search::next`] names the test the renderer must evaluate (a box
//! of the tree, or one of its objects), the renderer reports the outcome
//! through [`Search::answer_box`] or [`Search::answer_object`], and when
//! [`Search::next`] says it is done, [`Search::result`] holds the closest
//! reported hit.  The machine keeps a transcript of every answer it was
//! given, and its guarantee is stated over that transcript: every leaf of the
//! tree was either asked about, or sits under a box whose test was answered
//! "miss"; and the result is the minimum of the reported hit distances.  If
//! the box answers are conservative — a box that misses hides no hitting
//! object, which is exactly what the hierarchy invariant gives a geometric
//! slab test — the result therefore equals the closest hit of a brute-force
//! scan over all objects.

use vstd::prelude::*;
use crate::aabb::Aabb;
use crate::bvh::{Bvh, NodeKind, Node, Object, in_subtree, wf_node, subtree_leaves};

verus! {

/// The next evaluation a [`Search`] asks of its driver.
#[derive(Clone, Copy, Debug)]
pub enum Step {
    /// Test the ray against this box of the tree; report through
    /// [`Search::answer_box`].
    TestBox(Aabb),
    /// Intersect the ray with the object of this id, within the same
    /// distance range as every other object test of this search; report
    /// through [`Search::answer_object`].
    TestObject(usize),
    /// The walk is finished; read [`Search::result`].
    Done,
}

/// What the machine is waiting for.
#[derive(Clone, Copy, Debug)]
pub enum SearchMode {
    Idle,
    WantBox(usize),
    WantObject(usize),
}

/// `m` is a leaf slot of the arena.
pub open spec fn is_leaf(nodes: Seq<Node>, m: int) -> bool {
    0 <= m < nodes.len() && (nodes[m].kind matches NodeKind::Leaf(_))
}

/// The object at leaf slot `m`.
pub open spec fn leaf_obj(nodes: Seq<Node>, m: int) -> Object {
    match nodes[m].kind {
        NodeKind::Leaf(o) => o,
        NodeKind::Internal(_, _) => arbitrary(),
    }
}

/// Membership in a subtree bounds the member by the arena and by the root of
/// the subtree.
pub proof fn lemma_in_subtree_bounds(nodes: Seq<Node>, m: int, i: int)
    requires
        in_subtree(nodes, m, i),
    ensures
        0 <= m < nodes.len(),
        m <= i,
    decreases i,
{
    if m == i {
    } else {
        match nodes[i].kind {
            NodeKind::Leaf(_) => {},
            NodeKind::Internal(l, r) => {
                if (l as int) < i && in_subtree(nodes, m, l as int) {
                    lemma_in_subtree_bounds(nodes, m, l as int);
                } else {
                    lemma_in_subtree_bounds(nodes, m, r as int);
                }
            },
        }
    }
}

/// Every node of a well-formed subtree is itself well formed.
pub proof fn lemma_in_subtree_wf(nodes: Seq<Node>, m: int, i: int)
    requires
        wf_node(nodes, i),
        in_subtree(nodes, m, i),
    ensures
        wf_node(nodes, m),
    decreases i,
{
    if m == i {
    } else {
        match nodes[i].kind {
            NodeKind::Leaf(_) => {},
            NodeKind::Internal(l, r) => {
                if (l as int) < i && in_subtree(nodes, m, l as int) {
                    lemma_in_subtree_wf(nodes, m, l as int);
                } else {
                    lemma_in_subtree_wf(nodes, m, r as int);
                }
            },
        }
    }
}

/// Subtree membership composes: what lies under `n` lies under anything `n`
/// lies under.
pub proof fn lemma_desc_in_subtree(nodes: Seq<Node>, m: int, n: int, i: int)
    requires
        in_subtree(nodes, n, i),
        in_subtree(nodes, m, n),
    ensures
        in_subtree(nodes, m, i),
    decreases i,
{
    if n == i {
    } else {
        match nodes[i].kind {
            NodeKind::Leaf(_) => {},
            NodeKind::Internal(l, r) => {
                if (l as int) < i && in_subtree(nodes, n, l as int) {
                    lemma_desc_in_subtree(nodes, m, n, l as int);
                } else {
                    lemma_desc_in_subtree(nodes, m, n, r as int);
                }
            },
        }
    }
}

/// One ray's walk through a [`Bvh`].
pub struct Search {
    /// Nodes whose subtrees still await a visit.
    pub stack: Vec<usize>,
    /// The answer the machine is waiting for.
    pub mode: SearchMode,
    /// Closest hit reported so far: the object's id and its distance key.
    pub best: Option<(usize, u64)>,
    /// Leaf slot of the best hit.
    pub best_node: Ghost<int>,
    /// Transcript of box answers: (node, did the ray meet its box).
    pub box_log: Ghost<Seq<(int, bool)>>,
    /// Transcript of object answers: (leaf slot, reported distance key).
    pub obj_log: Ghost<Seq<(int, Option<u64>)>>,
}

impl Search {
    /// Some answered box test at `n` reported a miss, and `m` sits in its
    /// subtree: the walk discarded `m` there.
    pub open spec fn pruned(self, bvh: Bvh, m: int) -> bool {
        exists|k: int|
            0 <= k < self.box_log@.len() && (#[trigger] self.box_log@[k]).1 == false
                && in_subtree(bvh.nodes@, m, self.box_log@[k].0)
    }

    /// Leaf `m` was asked about.
    pub open spec fn asked(self, m: int) -> bool {
        exists|k: int| 0 <= k < self.obj_log@.len() && (#[trigger] self.obj_log@[k]).0 == m
    }

    /// `m` still sits under some pending part of the walk.
    pub open spec fn covered(self, bvh: Bvh, m: int) -> bool {
        ||| exists|k: int|
            0 <= k < self.stack@.len() && in_subtree(
                bvh.nodes@,
                m,
                (#[trigger] self.stack@[k]) as int,
            )
        ||| (self.mode matches SearchMode::WantBox(n) && in_subtree(bvh.nodes@, m, n as int))
        ||| (self.mode matches SearchMode::WantObject(n) && m == n as int)
    }

    /// Leaf `m` is accounted for: asked about, discarded by a missed box, or
    /// still ahead of the walk.
    pub open spec fn accounted(self, bvh: Bvh, m: int) -> bool {
        self.asked(m) || self.pruned(bvh, m) || self.covered(bvh, m)
    }

    /// The machine's invariant against the tree it walks.
    pub open spec fn inv(self, bvh: Bvh) -> bool {
        let nodes = bvh.nodes@;
        let root = bvh.root_idx();
        &&& bvh.wf()
        &&& forall|k: int|
            0 <= k < self.stack@.len() ==> in_subtree(
                nodes,
                (#[trigger] self.stack@[k]) as int,
                root,
            )
        &&& match self.mode {
            SearchMode::Idle => true,
            SearchMode::WantBox(n) => in_subtree(nodes, n as int, root),
            SearchMode::WantObject(n) => is_leaf(nodes, n as int) && in_subtree(
                nodes,
                n as int,
                root,
            ),
        }
        &&& forall|m: int|
            is_leaf(nodes, m) && #[trigger] in_subtree(nodes, m, root) ==> self.accounted(bvh, m)
        &&& forall|k: int|
            0 <= k < self.obj_log@.len() ==> is_leaf(nodes, (#[trigger] self.obj_log@[k]).0)
                && in_subtree(nodes, self.obj_log@[k].0, root)
        &&& match self.best {
            None => forall|k: int|
                0 <= k < self.obj_log@.len() ==> (#[trigger] self.obj_log@[k]).1 is None,
            Some(p) => {
                &&& exists|k: int|
                    0 <= k < self.obj_log@.len() && #[trigger] self.obj_log@[k] == (
                    self.best_node@,
                    Some(p.1),
                    )
                &&& is_leaf(nodes, self.best_node@)
                &&& in_subtree(nodes, self.best_node@, root)
                &&& leaf_obj(nodes, self.best_node@).id == p.0
                &&& forall|k: int|
                    0 <= k < self.obj_log@.len() ==> ((#[trigger] self.obj_log@[k]).1 matches Some(
                        tm,
                    ) ==> p.1 <= tm)
            },
        }
    }

    /// The walk is finished.
    pub open spec fn done(self) -> bool {
        self.stack@.len() == 0 && (self.mode matches SearchMode::Idle)
    }

    /// Begin a walk at the root of the tree.
    pub fn new(bvh: &Bvh) -> (s: Search)
        requires
            bvh.wf(),
        ensures
            s.inv(*bvh),
            s.box_log@ == Seq::<(int, bool)>::empty(),
            s.obj_log@ == Seq::<(int, Option<u64>)>::empty(),
            s.best is None,
    {
        let mut stack: Vec<usize> = Vec::new();
        stack.push(bvh.nodes.len() - 1);
        let s = Search {
            stack,
            mode: SearchMode::Idle,
            best: None,
            best_node: Ghost(0),
            box_log: Ghost(Seq::empty()),
            obj_log: Ghost(Seq::empty()),
        };
        proof {
            let nodes = bvh.nodes@;
            let root = bvh.root_idx();
            assert(in_subtree(nodes, root, root));
            assert(s.stack@[0] as int == root);
            assert forall|m: int| is_leaf(nodes, m) && #[trigger] in_subtree(nodes, m, root)
                implies s.accounted(*bvh, m) by {
                assert(in_subtree(nodes, m, (#[trigger] s.stack@[0]) as int));
            }
        }
        s
    }

    /// The next evaluation the driver must perform, or [`Step::Done`].
    /// Repeated calls without an intervening answer return the same request.
    pub fn next(&mut self, bvh: &Bvh) -> (step: Step)
        requires
            old(self).inv(*bvh),
        ensures
            final(self).inv(*bvh),
            final(self).box_log == old(self).box_log,
            final(self).obj_log == old(self).obj_log,
            final(self).best == old(self).best,
            match step {
                Step::Done => final(self).done(),
                Step::TestBox(b) => final(self).mode matches SearchMode::WantBox(n) && 0 <= (
                n as int) < bvh.nodes@.len() && b == bvh.nodes@[n as int].bbox,
                Step::TestObject(oid) => final(self).mode matches SearchMode::WantObject(n)
                    && is_leaf(bvh.nodes@, n as int) && leaf_obj(bvh.nodes@, n as int).id == oid,
            },
    {
        let ghost nodes = bvh.nodes@;
        let ghost root = bvh.root_idx();
        match self.mode {
            SearchMode::WantBox(n) => {
                proof {
                    lemma_in_subtree_bounds(nodes, n as int, root);
                }
                Step::TestBox(bvh.nodes[n].bbox)
            },
            SearchMode::WantObject(n) => {
                match bvh.nodes[n].kind {
                    NodeKind::Leaf(o) => Step::TestObject(o.id),
                    NodeKind::Internal(_, _) => {
                        proof {
                            assert(false);
                        }
                        Step::Done
                    },
                }
            },
            SearchMode::Idle => {
                let ghost pre = *self;
                match self.stack.pop() {
                    Some(n) => {
                        self.mode = SearchMode::WantBox(n);
                        proof {
                            assert(n as int == pre.stack@[pre.stack@.len() - 1] as int);
                            lemma_in_subtree_bounds(nodes, n as int, root);
                            assert forall|m: int|
                                is_leaf(nodes, m) && #[trigger] in_subtree(nodes, m, root)
                                implies self.accounted(*bvh, m) by {
                                if pre.covered(*bvh, m) {
                                    let k = choose|k: int|
                                        0 <= k < pre.stack@.len() && in_subtree(
                                            nodes,
                                            m,
                                            (#[trigger] pre.stack@[k]) as int,
                                        );
                                    if k < pre.stack@.len() - 1 {
                                        assert(in_subtree(
                                            nodes,
                                            m,
                                            (#[trigger] self.stack@[k]) as int,
                                        ));
                                    } else {
                                        assert(in_subtree(nodes, m, n as int));
                                    }
                                }
                                self.lemma_accounted_step(*bvh, pre, m);
                            }
                        }
                        Step::TestBox(bvh.nodes[n].bbox)
                    },
                    None => Step::Done,
                }
            },
        }
    }

    /// Transfer of `accounted` from an earlier state whose transcripts are a
    /// prefix of this one's, provided whatever the earlier state covered is
    /// either covered, logged or pruned now.
    proof fn lemma_accounted_step(&self, bvh: Bvh, pre: Search, m: int)
        requires
            pre.accounted(bvh, m),
            pre.obj_log@.len() <= self.obj_log@.len(),
            forall|k: int| 0 <= k < pre.obj_log@.len() ==> self.obj_log@[k] == pre.obj_log@[k],
            pre.box_log@.len() <= self.box_log@.len(),
            forall|k: int| 0 <= k < pre.box_log@.len() ==> self.box_log@[k] == pre.box_log@[k],
            pre.covered(bvh, m) ==> self.accounted(bvh, m),
        ensures
            self.accounted(bvh, m),
    {
        if pre.asked(m) {
            let k = choose|k: int|
                0 <= k < pre.obj_log@.len() && (#[trigger] pre.obj_log@[k]).0 == m;
            assert((#[trigger] self.obj_log@[k]).0 == m);
        } else if pre.pruned(bvh, m) {
            let k = choose|k: int|
                0 <= k < pre.box_log@.len() && (#[trigger] pre.box_log@[k]).1 == false
                    && in_subtree(bvh.nodes@, m, pre.box_log@[k].0);
            assert((#[trigger] self.box_log@[k]).1 == false && in_subtree(
                bvh.nodes@,
                m,
                self.box_log@[k].0,
            ));
        }
    }

    /// Report the outcome of the box test the machine asked for: a hit
    /// descends into the node, a miss discards its whole subtree.
    pub fn answer_box(&mut self, bvh: &Bvh, hit: bool)
        requires
            old(self).inv(*bvh),
            old(self).mode matches SearchMode::WantBox(_),
        ensures
            final(self).inv(*bvh),
            final(self).obj_log == old(self).obj_log,
            final(self).best == old(self).best,
            old(self).mode matches SearchMode::WantBox(n) ==> final(self).box_log@ == old(
                self,
            ).box_log@.push((n as int, hit)),
    {
        let ghost pre = *self;
        let ghost nodes = bvh.nodes@;
        let ghost root = bvh.root_idx();
        let n: usize = match self.mode {
            SearchMode::WantBox(n) => n,
            _ => {
                proof {
                    assert(false);
                }
                0
            },
        };
        proof {
            lemma_in_subtree_wf(nodes, n as int, root);
        }
        self.box_log = Ghost(self.box_log@.push((n as int, hit)));
        self.mode = SearchMode::Idle;
        if hit {
            match bvh.nodes[n].kind {
                NodeKind::Internal(l, r) => {
                    self.stack.push(l);
                    self.stack.push(r);
                    proof {
                        assert(in_subtree(nodes, l as int, l as int));
                        assert(in_subtree(nodes, r as int, r as int));
                        assert(in_subtree(nodes, l as int, n as int));
                        assert(in_subtree(nodes, r as int, n as int));
                        lemma_desc_in_subtree(nodes, l as int, n as int, root);
                        lemma_desc_in_subtree(nodes, r as int, n as int, root);
                        let sl = self.stack@.len();
                        assert(self.stack@[sl - 2] == l && self.stack@[sl - 1] == r);
                        assert forall|m: int|
                            is_leaf(nodes, m) && #[trigger] in_subtree(nodes, m, root)
                            implies self.accounted(*bvh, m) by {
                            if pre.covered(*bvh, m) {
                                if in_subtree(nodes, m, n as int) {
                                    assert(m != n as int);
                                    if in_subtree(nodes, m, l as int) {
                                        assert(in_subtree(
                                            nodes,
                                            m,
                                            (#[trigger] self.stack@[sl - 2]) as int,
                                        ));
                                    } else {
                                        assert(in_subtree(
                                            nodes,
                                            m,
                                            (#[trigger] self.stack@[sl - 1]) as int,
                                        ));
                                    }
                                } else {
                                    self.lemma_covered_stack(*bvh, pre, m);
                                }
                            }
                            self.lemma_accounted_step(*bvh, pre, m);
                        }
                    }
                },
                NodeKind::Leaf(_) => {
                    self.mode = SearchMode::WantObject(n);
                    proof {
                        assert forall|m: int|
                            is_leaf(nodes, m) && #[trigger] in_subtree(nodes, m, root)
                            implies self.accounted(*bvh, m) by {
                            if pre.covered(*bvh, m) {
                                if in_subtree(nodes, m, n as int) {
                                    assert(m == n as int);
                                } else {
                                    self.lemma_covered_stack(*bvh, pre, m);
                                }
                            }
                            self.lemma_accounted_step(*bvh, pre, m);
                        }
                    }
                },
            }
        } else {
            proof {
                let bl = self.box_log@.len();
                assert forall|m: int| is_leaf(nodes, m) && #[trigger] in_subtree(nodes, m, root)
                    implies self.accounted(*bvh, m) by {
                    if pre.covered(*bvh, m) {
                        if in_subtree(nodes, m, n as int) {
                            assert((#[trigger] self.box_log@[bl - 1]).1 == false && in_subtree(
                                nodes,
                                m,
                                self.box_log@[bl - 1].0,
                            ));
                        } else {
                            self.lemma_covered_stack(*bvh, pre, m);
                        }
                    }
                    self.lemma_accounted_step(*bvh, pre, m);
                }
            }
        }
    }

    /// If `m` was covered before through the stack (not through the mode's
    /// node), and the old stack is a prefix of the new one, it is covered
    /// still.
    proof fn lemma_covered_stack(&self, bvh: Bvh, pre: Search, m: int)
        requires
            pre.covered(bvh, m),
            pre.mode matches SearchMode::WantBox(n) ==> !in_subtree(bvh.nodes@, m, n as int),
            pre.mode matches SearchMode::WantObject(n) ==> m != n as int,
            pre.stack@.len() <= self.stack@.len(),
            forall|k: int| 0 <= k < pre.stack@.len() ==> self.stack@[k] == pre.stack@[k],
        ensures
            self.covered(bvh, m),
    {
        let k = choose|k: int|
            0 <= k < pre.stack@.len() && in_subtree(bvh.nodes@, m, (#[trigger] pre.stack@[k]) as int);
        assert(in_subtree(bvh.nodes@, m, (#[trigger] self.stack@[k]) as int));
    }

    /// Report the outcome of the object test the machine asked for: `None`
    /// for a miss, or the hit's distance key.  A strictly closer hit
    /// replaces the best one seen so far.
    pub fn answer_object(&mut self, bvh: &Bvh, t: Option<u64>)
        requires
            old(self).inv(*bvh),
            old(self).mode matches SearchMode::WantObject(_),
        ensures
            final(self).inv(*bvh),
            final(self).box_log == old(self).box_log,
            old(self).mode matches SearchMode::WantObject(n) ==> final(self).obj_log@ == old(
                self,
            ).obj_log@.push((n as int, t)),
    {
        let ghost pre = *self;
        let ghost nodes = bvh.nodes@;
        let ghost root = bvh.root_idx();
        let n: usize = match self.mode {
            SearchMode::WantObject(n) => n,
            _ => {
                proof {
                    assert(false);
                }
                0
            },
        };
        self.obj_log = Ghost(self.obj_log@.push((n as int, t)));
        self.mode = SearchMode::Idle;
        let oid: usize = match bvh.nodes[n].kind {
            NodeKind::Leaf(o) => o.id,
            NodeKind::Internal(_, _) => {
                proof {
                    assert(false);
                }
                0
            },
        };
        let ghost ol = self.obj_log@.len();
        if let Some(tv) = t {
            let replace: bool = match self.best {
                None => true,
                Some(p) => tv < p.1,
            };
            if replace {
                self.best = Some((oid, tv));
                self.best_node = Ghost(n as int);
            }
        }
        proof {
            assert(self.obj_log@[ol - 1] == (n as int, t));
            // Every leaf stays accounted for: the one the mode pointed at is
            // now in the transcript.
            assert forall|m: int| is_leaf(nodes, m) && #[trigger] in_subtree(nodes, m, root)
                implies self.accounted(*bvh, m) by {
                if pre.covered(*bvh, m) {
                    if m == n as int {
                        assert((#[trigger] self.obj_log@[ol - 1]).0 == m);
                    } else {
                        self.lemma_covered_stack(*bvh, pre, m);
                    }
                }
                self.lemma_accounted_step(*bvh, pre, m);
            }
            // The best hit is still the minimum of the transcript.
            match pre.best {
                None => {
                    match t {
                        None => {
                            assert forall|k: int| 0 <= k < self.obj_log@.len() implies (
                            #[trigger] self.obj_log@[k]).1 is None by {
                                if k < ol - 1 {
                                    assert(pre.obj_log@[k].1 is None);
                                }
                            }
                        },
                        Some(tv) => {
                            assert(self.obj_log@[ol - 1] == (n as int, Some(tv)));
                            assert(leaf_obj(nodes, n as int).id == oid);
                        },
                    }
                },
                Some(p) => {
                    let ghost bk = choose|k: int|
                        0 <= k < pre.obj_log@.len() && #[trigger] pre.obj_log@[k] == (
                        pre.best_node@,
                        Some(p.1),
                        );
                    match self.best {
                        None => {
                            assert(false);
                        },
                        Some(q) => {
                            if q == p && self.best_node@ == pre.best_node@ {
                                assert(#[trigger] self.obj_log@[bk] == (
                                    self.best_node@,
                                    Some(q.1),
                                ));
                            } else {
                                assert(self.obj_log@[ol - 1] == (n as int, Some(q.1)));
                            }
                        },
                    }
                },
            }
        }
    }

    /// The closest hit reported during the walk: the object's id and its
    /// distance key, or `None` when every reported test missed.
    pub fn result(&self) -> (r: Option<(usize, u64)>)
        ensures
            r == self.best,
    {
        self.best
    }
}

/// The brute-force reference: scan a table of per-object hit distances and
/// return the closest valid hit — the first object achieving the minimum
/// distance key — or `None` when every object missed.
pub fn closest_hit(ts: &Vec<Option<u64>>) -> (r: Option<(usize, u64)>)
    ensures
        match r {
            None => forall|k: int| 0 <= k < ts@.len() ==> (#[trigger] ts@[k]) is None,
            Some(p) => {
                &&& (p.0 as int) < ts@.len()
                &&& ts@[p.0 as int] == Some(p.1)
                &&& forall|k: int|
                    0 <= k < ts@.len() ==> ((#[trigger] ts@[k]) matches Some(tk) ==> p.1 <= tk)
            },
        },
{
    let mut best: Option<(usize, u64)> = None;
    let mut i: usize = 0;
    while i < ts.len()
        invariant
            i <= ts@.len(),
            match best {
                None => forall|k: int| 0 <= k < i ==> (#[trigger] ts@[k]) is None,
                Some(p) => {
                    &&& (p.0 as int) < i
                    &&& ts@[p.0 as int] == Some(p.1)
                    &&& forall|k: int|
                        0 <= k < i ==> ((#[trigger] ts@[k]) matches Some(tk) ==> p.1 <= tk)
                },
            },
        decreases ts@.len() - i,
    {
        if let Some(t) = ts[i] {
            let replace: bool = match best {
                None => true,
                Some(p) => t < p.1,
            };
            if replace {
                best = Some((i, t));
            }
        }
        i = i + 1;
    }
    best
}

/// A leaf slot holding `o` exists wherever the leaf multiset counts `o`.
pub proof fn lemma_leaf_witness(nodes: Seq<Node>, i: int, o: Object)
    requires
        wf_node(nodes, i),
        subtree_leaves(nodes, i).count(o) > 0,
    ensures
        exists|m: int|
            is_leaf(nodes, m) && #[trigger] in_subtree(nodes, m, i) && leaf_obj(nodes, m) == o,
    decreases i,
{
    broadcast use vstd::multiset::group_multiset_axioms;

    match nodes[i].kind {
        NodeKind::Leaf(p) => {
            assert(o == p);
            assert(is_leaf(nodes, i) && #[trigger] in_subtree(nodes, i, i) && leaf_obj(nodes, i)
                == o);
        },
        NodeKind::Internal(l, r) => {
            assert(in_subtree(nodes, l as int, l as int));
            assert(in_subtree(nodes, r as int, r as int));
            if subtree_leaves(nodes, l as int).count(o) > 0 {
                lemma_leaf_witness(nodes, l as int, o);
                let m = choose|m: int|
                    is_leaf(nodes, m) && #[trigger] in_subtree(nodes, m, l as int) && leaf_obj(
                        nodes,
                        m,
                    ) == o;
                lemma_desc_in_subtree(nodes, m, l as int, i);
                assert(is_leaf(nodes, m) && #[trigger] in_subtree(nodes, m, i) && leaf_obj(
                    nodes,
                    m,
                ) == o);
            } else {
                lemma_leaf_witness(nodes, r as int, o);
                let m = choose|m: int|
                    is_leaf(nodes, m) && #[trigger] in_subtree(nodes, m, r as int) && leaf_obj(
                        nodes,
                        m,
                    ) == o;
                lemma_desc_in_subtree(nodes, m, r as int, i);
                assert(is_leaf(nodes, m) && #[trigger] in_subtree(nodes, m, i) && leaf_obj(
                    nodes,
                    m,
                ) == o);
            }
        },
    }
}

/// Each leaf's object is counted by the leaf multiset of any well-formed
/// subtree it sits in.
pub proof fn lemma_leaf_in_leaves(nodes: Seq<Node>, m: int, i: int)
    requires
        wf_node(nodes, i),
        in_subtree(nodes, m, i),
        is_leaf(nodes, m),
    ensures
        subtree_leaves(nodes, i).count(leaf_obj(nodes, m)) > 0,
    decreases i,
{
    broadcast use vstd::multiset::group_multiset_axioms;

    if m == i {
    } else {
        match nodes[i].kind {
            NodeKind::Leaf(_) => {},
            NodeKind::Internal(l, r) => {
                if (l as int) < i && in_subtree(nodes, m, l as int) {
                    lemma_leaf_in_leaves(nodes, m, l as int);
                } else {
                    lemma_leaf_in_leaves(nodes, m, r as int);
                }
            },
        }
    }
}

/// Law: a finished search reports the closest hit over the whole tree.
///
/// `truth` assigns to each leaf slot the outcome the driver's intersection
/// test reports for that leaf's object (for one fixed ray and distance
/// range).  If the transcripts agree with `truth` — every object answer is
/// the truth of its leaf, and no box answered "miss" hides a leaf whose
/// truth is a hit (which the hierarchy invariant guarantees for a geometric
/// slab test) — then the search result is the minimum truth over all leaves
/// of the tree, and its object id belongs to a leaf achieving it.
pub proof fn lemma_search_exhaustive(s: Search, bvh: Bvh, truth: Map<int, Option<u64>>)
    requires
        s.inv(bvh),
        s.done(),
        forall|k: int|
            0 <= k < s.obj_log@.len() ==> (#[trigger] s.obj_log@[k]).1 == truth[s.obj_log@[k].0],
        forall|k: int, m: int|
            #![trigger s.box_log@[k], in_subtree(bvh.nodes@, m, s.box_log@[k].0)]
            0 <= k < s.box_log@.len() && s.box_log@[k].1 == false && is_leaf(bvh.nodes@, m)
                && in_subtree(bvh.nodes@, m, s.box_log@[k].0) ==> truth[m] is None,
    ensures
        match s.best {
            None => forall|m: int|
                is_leaf(bvh.nodes@, m) && #[trigger] in_subtree(bvh.nodes@, m, bvh.root_idx())
                    ==> truth[m] is None,
            Some(p) => {
                &&& exists|m: int|
                    is_leaf(bvh.nodes@, m) && #[trigger] in_subtree(
                        bvh.nodes@,
                        m,
                        bvh.root_idx(),
                    ) && truth[m] == Some(p.1) && leaf_obj(bvh.nodes@, m).id == p.0
                &&& forall|m: int|
                    is_leaf(bvh.nodes@, m) && #[trigger] in_subtree(bvh.nodes@, m, bvh.root_idx())
                        ==> (truth[m] matches Some(tm) ==> p.1 <= tm)
            },
        },
{
    let nodes = bvh.nodes@;
    let root = bvh.root_idx();
    assert forall|m: int| is_leaf(nodes, m) && #[trigger] in_subtree(nodes, m, root)
        implies (match s.best {
        None => truth[m] is None,
        Some(p) => truth[m] matches Some(tm) ==> p.1 <= tm,
    }) by {
        assert(s.accounted(bvh, m));
        assert(!s.covered(bvh, m));
        if s.asked(m) {
            let k = choose|k: int| 0 <= k < s.obj_log@.len() && (#[trigger] s.obj_log@[k]).0 == m;
            assert(s.obj_log@[k].1 == truth[m]);
        } else {
            let k = choose|k: int|
                0 <= k < s.box_log@.len() && (#[trigger] s.box_log@[k]).1 == false && in_subtree(
                    nodes,
                    m,
                    s.box_log@[k].0,
                );
            assert(truth[m] is None);
        }
    }
    match s.best {
        None => {},
        Some(p) => {
            let bk = choose|k: int|
                0 <= k < s.obj_log@.len() && #[trigger] s.obj_log@[k] == (
                s.best_node@,
                Some(p.1),
                );
            assert(truth[s.best_node@] == Some(p.1));
            assert(is_leaf(nodes, s.best_node@) && #[trigger] in_subtree(nodes, s.best_node@, root)
                && truth[s.best_node@] == Some(p.1) && leaf_obj(nodes, s.best_node@).id == p.0);
        },
    }
}

/// Law: the search result equals a brute-force scan over the object table.
///
/// `objs` is the object collection the tree was built from, with each
/// object's id equal to its position, and `ts` is the table of the driver's
/// per-object hit distances for one ray.  Under the same transcript
/// agreement as [`lemma_search_exhaustive`], and with each leaf's truth
/// being its object's table entry, the finished search returns exactly what
/// [`closest_hit`] computes from the table: the minimal hit distance, at an
/// object that achieves it.
pub proof fn lemma_search_matches_brute_force(
    s: Search,
    bvh: Bvh,
    truth: Map<int, Option<u64>>,
    objs: Seq<Object>,
    ts: Seq<Option<u64>>,
)
    requires
        s.inv(bvh),
        s.done(),
        bvh.leaves() == objs.to_multiset(),
        objs.len() == ts.len(),
        forall|i: int| 0 <= i < objs.len() ==> (#[trigger] objs[i]).id == i,
        forall|k: int|
            0 <= k < s.obj_log@.len() ==> (#[trigger] s.obj_log@[k]).1 == truth[s.obj_log@[k].0],
        forall|k: int, m: int|
            #![trigger s.box_log@[k], in_subtree(bvh.nodes@, m, s.box_log@[k].0)]
            0 <= k < s.box_log@.len() && s.box_log@[k].1 == false && is_leaf(bvh.nodes@, m)
                && in_subtree(bvh.nodes@, m, s.box_log@[k].0) ==> truth[m] is None,
        forall|m: int|
            is_leaf(bvh.nodes@, m) && #[trigger] in_subtree(bvh.nodes@, m, bvh.root_idx())
                ==> truth[m] == ts[leaf_obj(bvh.nodes@, m).id as int],
    ensures
        match s.best {
            None => forall|i: int| 0 <= i < ts.len() ==> (#[trigger] ts[i]) is None,
            Some(p) => {
                &&& (p.0 as int) < ts.len()
                &&& ts[p.0 as int] == Some(p.1)
                &&& forall|i: int|
                    0 <= i < ts.len() ==> ((#[trigger] ts[i]) matches Some(ti) ==> p.1 <= ti)
            },
        },
{
    broadcast use vstd::seq_lib::group_to_multiset_ensures;

    let nodes = bvh.nodes@;
    let root = bvh.root_idx();
    lemma_search_exhaustive(s, bvh, truth);
    // Every table index is the id of some leaf's object.
    assert forall|i: int| #![trigger ts[i]] 0 <= i < ts.len() implies exists|m: int|
        is_leaf(nodes, m) && #[trigger] in_subtree(nodes, m, root) && leaf_obj(nodes, m).id
            == i by {
        assert(objs.contains(objs[i]));
        assert(objs.to_multiset().count(objs[i]) > 0);
        lemma_leaf_witness(nodes, root, objs[i]);
    }
    match s.best {
        None => {
            assert forall|i: int| 0 <= i < ts.len() implies (#[trigger] ts[i]) is None by {
                let m = choose|m: int|
                    is_leaf(nodes, m) && #[trigger] in_subtree(nodes, m, root) && leaf_obj(
                        nodes,
                        m,
                    ).id == i;
                assert(truth[m] is None);
            }
        },
        Some(p) => {
            let w = choose|m: int|
                is_leaf(nodes, m) && #[trigger] in_subtree(nodes, m, root) && truth[m] == Some(p.1)
                    && leaf_obj(nodes, m).id == p.0;
            lemma_leaf_in_leaves(nodes, w, root);
            assert(objs.to_multiset().count(leaf_obj(nodes, w)) > 0);
            assert(objs.contains(leaf_obj(nodes, w)));
            let j = choose|j: int| 0 <= j < objs.len() && objs[j] == leaf_obj(nodes, w);
            assert((p.0 as int) == j);
            assert(ts[p.0 as int] == Some(p.1));
            assert forall|i: int| 0 <= i < ts.len() implies ((#[trigger] ts[i]) matches Some(ti)
                ==> p.1 <= ti) by {
                let m = choose|m: int|
                    is_leaf(nodes, m) && #[trigger] in_subtree(nodes, m, root) && leaf_obj(
                        nodes,
                        m,
                    ).id == i;
                assert(truth[m] == ts[i]);
            }
        },
    }
}

} // verus!
