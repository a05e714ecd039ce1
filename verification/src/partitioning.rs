//! A dynamic bounding-volume tree.
//!
//! Leaves each store one payload and its bounding box; internal nodes store a
//! box enclosing everything beneath them.  The tree is viewed abstractly as a
//! map from payload to leaf bounding box; the enclosing-box invariant is what
//! makes pruned traversals complete.

use vstd::prelude::*;
use crate::math::{Vect, bounded, MAX_COORD};
use crate::bounding_volume::{
    Aabb,
    aabb_wf,
    aabb_bounded,
    aabb_overlaps,
    aabb_contains,
    aabb_merged,
    lemma_contains_overlaps,
    BV_BOUND,
};

verus! {

/// A node of the tree: a leaf with a payload, or an internal node whose box
/// encloses both children.
pub enum DbvtNode {
    Leaf { bv: Aabb, payload: u32 },
    Internal { bv: Aabb, left: Box<DbvtNode>, right: Box<DbvtNode> },
}

impl DbvtNode {
    /// The bounding box stored at this node.
    pub open spec fn node_bv(&self) -> Aabb {
        match *self {
            DbvtNode::Leaf { bv, .. } => bv,
            DbvtNode::Internal { bv, .. } => bv,
        }
    }

    /// The leaves beneath this node, as a map from payload to leaf box.
    pub open spec fn lmap(self) -> Map<u32, Aabb>
        decreases self,
    {
        match self {
            DbvtNode::Leaf { bv, payload } => Map::empty().insert(payload, bv),
            DbvtNode::Internal { left, right, .. } => left.lmap().union_prefer_right(
                right.lmap(),
            ),
        }
    }

    /// Structural invariant: boxes are well formed and in range, every
    /// internal box contains its children's boxes, and payloads are unique.
    pub open spec fn wf(self) -> bool
        decreases self,
    {
        match self {
            DbvtNode::Leaf { bv, .. } => aabb_wf(bv) && aabb_bounded(bv, BV_BOUND as int),
            DbvtNode::Internal { bv, left, right } => {
                &&& left.wf()
                &&& right.wf()
                &&& aabb_wf(bv)
                &&& aabb_bounded(bv, BV_BOUND as int)
                &&& aabb_contains(bv, left.node_bv())
                &&& aabb_contains(bv, right.node_bv())
                &&& left.lmap().dom().disjoint(right.lmap().dom())
            },
        }
    }

    /// The payloads of the leaves beneath this node whose box overlaps `q`,
    /// in depth-first order.
    pub open spec fn collect(self, q: Aabb) -> Seq<u32>
        decreases self,
    {
        match self {
            DbvtNode::Leaf { bv, payload } => if aabb_overlaps(bv, q) {
                seq![payload]
            } else {
                Seq::empty()
            },
            DbvtNode::Internal { left, right, .. } => left.collect(q) + right.collect(q),
        }
    }

    /// A well-formed node stores a well-formed, in-range box.
    pub proof fn lemma_wf_bv(self)
        requires
            self.wf(),
        ensures
            aabb_wf(self.node_bv()),
            aabb_bounded(self.node_bv(), BV_BOUND as int),
    {
        match self {
            DbvtNode::Leaf { .. } => {},
            DbvtNode::Internal { .. } => {},
        }
    }

    /// Every leaf box beneath a node lies within the node's box and is well
    /// formed.
    pub proof fn lemma_leaf_in_node_bv(self, p: u32)
        requires
            self.wf(),
            self.lmap().dom().contains(p),
        ensures
            aabb_contains(self.node_bv(), self.lmap()[p]),
            aabb_wf(self.lmap()[p]),
        decreases self,
    {
        match self {
            DbvtNode::Leaf { .. } => {},
            DbvtNode::Internal { bv, left, right } => {
                if right.lmap().dom().contains(p) {
                    right.lemma_leaf_in_node_bv(p);
                } else {
                    left.lemma_leaf_in_node_bv(p);
                }
            },
        }
    }

    /// A payload appears in `collect(q)` exactly when its leaf box overlaps
    /// `q`.
    pub proof fn lemma_collect_characterizes(self, q: Aabb, p: u32)
        requires
            self.wf(),
        ensures
            self.collect(q).contains(p) <==> (self.lmap().dom().contains(p) && aabb_overlaps(
                self.lmap()[p],
                q,
            )),
        decreases self,
    {
        match self {
            DbvtNode::Leaf { bv, payload } => {
                if aabb_overlaps(bv, q) {
                    assert(self.collect(q) == seq![payload]);
                    assert(self.collect(q).contains(p) ==> p == payload);
                    if p == payload {
                        assert(self.collect(q)[0] == payload);
                    }
                } else {
                    assert(!self.collect(q).contains(p));
                }
            },
            DbvtNode::Internal { bv, left, right } => {
                left.lemma_collect_characterizes(q, p);
                right.lemma_collect_characterizes(q, p);
                if left.collect(q).contains(p) {
                    let i = choose|i: int|
                        0 <= i < left.collect(q).len() && left.collect(q)[i] == p;
                    assert(self.collect(q)[i] == p);
                }
                if right.collect(q).contains(p) {
                    let i = choose|i: int|
                        0 <= i < right.collect(q).len() && right.collect(q)[i] == p;
                    assert(self.collect(q)[left.collect(q).len() + i] == p);
                }
                if self.collect(q).contains(p) {
                    let i = choose|i: int|
                        0 <= i < self.collect(q).len() && self.collect(q)[i] == p;
                    if i < left.collect(q).len() {
                        assert(left.collect(q)[i] == p);
                    } else {
                        assert(right.collect(q)[i - left.collect(q).len()] == p);
                    }
                }
            },
        }
    }

    /// A node whose box misses `q` has nothing to report: pruning is sound.
    pub proof fn lemma_prune_sound(self, q: Aabb)
        requires
            self.wf(),
            !aabb_overlaps(self.node_bv(), q),
        ensures
            self.collect(q) == Seq::<u32>::empty(),
        decreases self,
    {
        match self {
            DbvtNode::Leaf { .. } => {},
            DbvtNode::Internal { bv, left, right } => {
                lemma_no_overlap_through_containment(bv, left.node_bv(), q);
                lemma_no_overlap_through_containment(bv, right.node_bv(), q);
                left.lemma_prune_sound(q);
                right.lemma_prune_sound(q);
                assert(self.collect(q) =~= Seq::<u32>::empty());
            },
        }
    }

    /// `collect(q)` never repeats a payload.
    pub proof fn lemma_collect_no_duplicates(self, q: Aabb)
        requires
            self.wf(),
        ensures
            self.collect(q).no_duplicates(),
        decreases self,
    {
        match self {
            DbvtNode::Leaf { .. } => {},
            DbvtNode::Internal { bv, left, right } => {
                left.lemma_collect_no_duplicates(q);
                right.lemma_collect_no_duplicates(q);
                assert forall|i: int, j: int|
                    0 <= i < self.collect(q).len() && 0 <= j < self.collect(q).len() && i
                        != j implies self.collect(q)[i] != self.collect(q)[j] by {
                    let ll = left.collect(q).len() as int;
                    if i < ll && j < ll {
                        assert(left.collect(q)[i] == self.collect(q)[i]);
                        assert(left.collect(q)[j] == self.collect(q)[j]);
                    } else if i >= ll && j >= ll {
                        assert(right.collect(q)[i - ll] == self.collect(q)[i]);
                        assert(right.collect(q)[j - ll] == self.collect(q)[j]);
                    } else {
                        let li = if i < ll { i } else { j };
                        let ri = if i < ll { j } else { i };
                        let p = self.collect(q)[li];
                        assert(left.collect(q)[li] == p);
                        assert(left.collect(q).contains(p));
                        left.lemma_collect_characterizes(q, p);
                        let pr = self.collect(q)[ri];
                        assert(right.collect(q)[ri - ll] == pr);
                        assert(right.collect(q).contains(pr));
                        right.lemma_collect_characterizes(q, pr);
                        assert(left.lmap().dom().contains(p));
                        assert(right.lmap().dom().contains(pr));
                    }
                }
            },
        }
    }
}

/// If `inner` lies within `outer` and `outer` misses `q`, then `inner`
/// misses `q` too.
pub proof fn lemma_no_overlap_through_containment(outer: Aabb, inner: Aabb, q: Aabb)
    requires
        aabb_contains(outer, inner),
        !aabb_overlaps(outer, q),
    ensures
        !aabb_overlaps(inner, q),
{
    if aabb_overlaps(inner, q) {
        lemma_contains_overlaps(outer, inner, q);
    }
}

/// Inserts `(payload, bv)` beneath `node`, descending toward the child whose
/// box would grow least and placing the new leaf as a sibling; every box on
/// the path is refit to enclose the new leaf.
fn insert_node(node: Box<DbvtNode>, bv: Aabb, payload: u32) -> (r: Box<DbvtNode>)
    requires
        node.wf(),
        aabb_wf(bv),
        aabb_bounded(bv, BV_BOUND as int),
        !node.lmap().dom().contains(payload),
    ensures
        r.wf(),
        r.lmap() =~= node.lmap().insert(payload, bv),
        r.node_bv() == aabb_merged(node.node_bv(), bv),
    decreases node,
{
    let node_bv: Aabb = match &*node {
        DbvtNode::Leaf { bv: nbv, .. } => *nbv,
        DbvtNode::Internal { bv: nbv, .. } => *nbv,
    };
    let merged: Aabb = node_bv.merged(&bv);
    match *node {
        DbvtNode::Leaf { bv: lbv, payload: lp } => {
            let old_leaf: Box<DbvtNode> = Box::new(DbvtNode::Leaf { bv: lbv, payload: lp });
            let new_leaf: Box<DbvtNode> = Box::new(DbvtNode::Leaf { bv, payload });
            proof {
                assert(old_leaf.wf());
                assert(new_leaf.wf());
            }
            Box::new(DbvtNode::Internal { bv: merged, left: old_leaf, right: new_leaf })
        },
        DbvtNode::Internal { bv: _ibv, left, right } => {
            let lbv: Aabb = match &*left {
                DbvtNode::Leaf { bv: x, .. } => *x,
                DbvtNode::Internal { bv: x, .. } => *x,
            };
            let rbv: Aabb = match &*right {
                DbvtNode::Leaf { bv: x, .. } => *x,
                DbvtNode::Internal { bv: x, .. } => *x,
            };
            proof {
                left.lemma_wf_bv();
                right.lemma_wf_bv();
            }
            let grow_l: i64 = lbv.merged(&bv).size_measure() - lbv.size_measure();
            let grow_r: i64 = rbv.merged(&bv).size_measure() - rbv.size_measure();
            if grow_l <= grow_r {
                let left2: Box<DbvtNode> = insert_node(left, bv, payload);
                Box::new(DbvtNode::Internal { bv: merged, left: left2, right })
            } else {
                let right2: Box<DbvtNode> = insert_node(right, bv, payload);
                Box::new(DbvtNode::Internal { bv: merged, left, right: right2 })
            }
        },
    }
}

/// Removes the leaf carrying `payload` beneath `node`, promoting its sibling
/// and refitting the boxes on the path; returns the new subtree (`None` when
/// the last leaf left) and the removed leaf's box.
fn remove_node(node: Box<DbvtNode>, payload: u32) -> (r: (Option<Box<DbvtNode>>, Option<Aabb>))
    requires
        node.wf(),
    ensures
        match r.0 {
            Some(n) => {
                &&& n.wf()
                &&& n.lmap() =~= node.lmap().remove(payload)
                &&& aabb_contains(node.node_bv(), n.node_bv())
            },
            None => node.lmap().remove(payload) =~= Map::<u32, Aabb>::empty(),
        },
        match r.1 {
            Some(b) => node.lmap().dom().contains(payload) && node.lmap()[payload] == b,
            None => !node.lmap().dom().contains(payload) && r.0 is Some,
        },
    decreases node,
{
    match *node {
        DbvtNode::Leaf { bv, payload: lp } => {
            if lp == payload {
                (None, Some(bv))
            } else {
                (Some(Box::new(DbvtNode::Leaf { bv, payload: lp })), None)
            }
        },
        DbvtNode::Internal { bv, left, right } => {
            let ghost old_left = *left;
            let ghost old_right = *right;
            let (l2, removed_l) = remove_node(left, payload);
            if removed_l.is_some() {
                match l2 {
                    None => {
                        proof {
                            assert(old_left.lmap().union_prefer_right(old_right.lmap()).remove(
                                payload,
                            ) =~= old_right.lmap());
                        }
                        (Some(right), removed_l)
                    },
                    Some(l) => {
                        let lbv: Aabb = match &*l {
                            DbvtNode::Leaf { bv: x, .. } => *x,
                            DbvtNode::Internal { bv: x, .. } => *x,
                        };
                        let rbv: Aabb = match &*right {
                            DbvtNode::Leaf { bv: x, .. } => *x,
                            DbvtNode::Internal { bv: x, .. } => *x,
                        };
                        let nbv: Aabb = lbv.merged(&rbv);
                        proof {
                            assert(l.lmap().union_prefer_right(old_right.lmap())
                                =~= old_left.lmap().union_prefer_right(old_right.lmap()).remove(
                                payload,
                            ));
                        }
                        (
                            Some(Box::new(DbvtNode::Internal { bv: nbv, left: l, right })),
                            removed_l,
                        )
                    },
                }
            } else {
                let left1: Box<DbvtNode> = match l2 {
                    Some(l) => l,
                    None => {
                        proof {
                            assert(false);
                        }
                        unreached()
                    },
                };
                let (r2, removed_r) = remove_node(right, payload);
                match r2 {
                    None => {
                        proof {
                            assert(old_left.lmap().union_prefer_right(old_right.lmap()).remove(
                                payload,
                            ) =~= old_left.lmap());
                        }
                        (Some(left1), removed_r)
                    },
                    Some(rn) => {
                        let lbv: Aabb = match &*left1 {
                            DbvtNode::Leaf { bv: x, .. } => *x,
                            DbvtNode::Internal { bv: x, .. } => *x,
                        };
                        let rbv: Aabb = match &*rn {
                            DbvtNode::Leaf { bv: x, .. } => *x,
                            DbvtNode::Internal { bv: x, .. } => *x,
                        };
                        let nbv: Aabb = lbv.merged(&rbv);
                        proof {
                            assert(old_left.lmap().union_prefer_right(rn.lmap())
                                =~= old_left.lmap().union_prefer_right(old_right.lmap()).remove(
                                payload,
                            ));
                        }
                        (
                            Some(Box::new(DbvtNode::Internal { bv: nbv, left: left1, right: rn })),
                            removed_r,
                        )
                    },
                }
            }
        },
    }
}

/// Depth-first traversal collecting the payloads of the leaves whose box
/// overlaps `q`, pruning subtrees whose box misses `q`.
fn visit_node(node: &DbvtNode, q: &Aabb, out: &mut Vec<u32>)
    requires
        node.wf(),
    ensures
        final(out)@ == old(out)@ + node.collect(*q),
    decreases node,
{
    let node_bv: Aabb = match node {
        DbvtNode::Leaf { bv, .. } => *bv,
        DbvtNode::Internal { bv, .. } => *bv,
    };
    if !node_bv.intersects(q) {
        proof {
            node.lemma_prune_sound(*q);
            assert(out@ =~= old(out)@ + node.collect(*q));
        }
        return ;
    }
    match node {
        DbvtNode::Leaf { bv, payload } => {
            if bv.intersects(q) {
                out.push(*payload);
            }
            proof {
                assert(out@ =~= old(out)@ + node.collect(*q));
            }
        },
        DbvtNode::Internal { left, right, .. } => {
            visit_node(&**left, q, out);
            visit_node(&**right, q, out);
            proof {
                assert(out@ =~= old(out)@ + node.collect(*q));
            }
        },
    }
}

/// The dynamic bounding-volume tree, abstractly a map from payload to the
/// bounding box stored at the payload's leaf.
pub struct Dbvt {
    root: Option<Box<DbvtNode>>,
}

impl Dbvt {
    /// The map from payload to leaf bounding box.
    pub closed spec fn lmap(self) -> Map<u32, Aabb> {
        match self.root {
            None => Map::empty(),
            Some(n) => n.lmap(),
        }
    }

    /// The tree's structural invariant.
    pub closed spec fn wf(self) -> bool {
        match self.root {
            None => true,
            Some(n) => n.wf(),
        }
    }

    /// The payloads whose leaf box overlaps `q`, in traversal order.
    pub closed spec fn spec_collect(self, q: Aabb) -> Seq<u32> {
        match self.root {
            None => Seq::empty(),
            Some(n) => n.collect(q),
        }
    }

    /// Builds an empty tree.
    pub fn new() -> (r: Dbvt)
        ensures
            r.wf(),
            r.lmap() == Map::<u32, Aabb>::empty(),
    {
        Dbvt { root: None }
    }

    /// Inserts a leaf for `payload` with box `bv`, descending toward the
    /// child whose box would grow least (the left child on ties).
    pub fn insert(&mut self, bv: Aabb, payload: u32)
        requires
            old(self).wf(),
            aabb_wf(bv),
            aabb_bounded(bv, BV_BOUND as int),
            !old(self).lmap().dom().contains(payload),
        ensures
            final(self).wf(),
            final(self).lmap() == old(self).lmap().insert(payload, bv),
    {
        let root: Option<Box<DbvtNode>> = self.root.take();
        match root {
            None => {
                self.root = Some(Box::new(DbvtNode::Leaf { bv, payload }));
                proof {
                    assert(self.lmap() =~= old(self).lmap().insert(payload, bv));
                }
            },
            Some(n) => {
                let n2: Box<DbvtNode> = insert_node(n, bv, payload);
                self.root = Some(n2);
                proof {
                    assert(self.lmap() =~= old(self).lmap().insert(payload, bv));
                }
            },
        }
    }

    /// Removes the leaf carrying `payload`, promoting its sibling; returns
    /// the removed leaf's box.
    pub fn remove(&mut self, payload: u32) -> (r: Option<Aabb>)
        requires
            old(self).wf(),
        ensures
            final(self).wf(),
            final(self).lmap() == old(self).lmap().remove(payload),
            r == if old(self).lmap().dom().contains(payload) {
                Some(old(self).lmap()[payload])
            } else {
                Option::<Aabb>::None
            },
    {
        let root: Option<Box<DbvtNode>> = self.root.take();
        match root {
            None => {
                proof {
                    assert(self.lmap() =~= old(self).lmap().remove(payload));
                }
                None
            },
            Some(n) => {
                let ghost old_n = *n;
                let (n2, removed) = remove_node(n, payload);
                self.root = n2;
                proof {
                    if self.root is None {
                        assert(old_n.lmap().dom().contains(payload));
                        assert(self.lmap() =~= old(self).lmap().remove(payload));
                    } else {
                        assert(self.lmap() =~= old(self).lmap().remove(payload));
                    }
                    if removed is None {
                        assert(self.lmap() =~= old(self).lmap());
                    }
                }
                removed
            },
        }
    }

    /// Replaces the box stored for `payload`: the leaf is detached and
    /// reinserted under the new box, as a move does.
    pub fn set_bv(&mut self, payload: u32, bv: Aabb)
        requires
            old(self).wf(),
            old(self).lmap().dom().contains(payload),
            aabb_wf(bv),
            aabb_bounded(bv, BV_BOUND as int),
        ensures
            final(self).wf(),
            final(self).lmap() == old(self).lmap().insert(payload, bv),
    {
        let _ = self.remove(payload);
        self.insert(bv, payload);
        proof {
            assert(self.lmap() =~= old(self).lmap().insert(payload, bv));
        }
    }

    /// The payloads of the leaves whose box overlaps `q`, in a deterministic
    /// depth-first order, without repetition: exactly the payloads whose
    /// stored box overlaps `q`.
    pub fn visit_overlapping(&self, q: &Aabb) -> (r: Vec<u32>)
        requires
            self.wf(),
        ensures
            r@ == self.spec_collect(*q),
            r@.no_duplicates(),
            forall|p: u32|
                r@.contains(p) <==> (self.lmap().dom().contains(p) && aabb_overlaps(
                    self.lmap()[p],
                    *q,
                )),
    {
        let mut out: Vec<u32> = Vec::new();
        match &self.root {
            None => {},
            Some(n) => {
                visit_node(&**n, q, &mut out);
                proof {
                    n.lemma_collect_no_duplicates(*q);
                    assert forall|p: u32|
                        out@.contains(p) <==> (self.lmap().dom().contains(p) && aabb_overlaps(
                            self.lmap()[p],
                            *q,
                        )) by {
                        n.lemma_collect_characterizes(*q, p);
                    }
                }
            },
        }
        out
    }
}


/// A cost function driving a best-first traversal of the tree: a lower-bound
/// cost for a box, an exact cost for a leaf, and the proof that the bound is
/// admissible (a box never costs more than any leaf it contains).
pub trait BvtCostFn {
    /// The lower-bound cost of a box.
    spec fn spec_bv_cost(&self, bv: Aabb) -> i128;

    /// The exact cost of a leaf, when the leaf qualifies.
    spec fn spec_leaf_cost(&self, bv: Aabb, payload: u32) -> Option<i128>;

    /// Computes the lower-bound cost of a box.
    fn compute_bv_cost(&self, bv: &Aabb) -> (r: i128)
        requires
            aabb_wf(*bv),
            aabb_bounded(*bv, BV_BOUND as int),
        ensures
            r == self.spec_bv_cost(*bv),
    ;

    /// Computes the exact cost of a leaf.
    fn compute_leaf_cost(&self, bv: &Aabb, payload: u32) -> (r: Option<i128>)
        requires
            aabb_wf(*bv),
            aabb_bounded(*bv, BV_BOUND as int),
        ensures
            r == self.spec_leaf_cost(*bv, payload),
    ;

    /// Admissibility: a box's cost is a lower bound on the exact cost of
    /// every qualifying leaf box within it.
    proof fn admissibility(&self, outer: Aabb, inner: Aabb, payload: u32)
        requires
            aabb_contains(outer, inner),
            aabb_wf(inner),
            self.spec_leaf_cost(inner, payload) is Some,
        ensures
            self.spec_bv_cost(outer) <= self.spec_leaf_cost(inner, payload)->Some_0,
    ;
}

/// Best-first descent below `node`, carrying the best qualifying leaf seen
/// so far and pruning subtrees whose box already costs at least as much.
fn best_node<F: BvtCostFn>(node: &DbvtNode, f: &F, best: Option<(u32, i128)>) -> (r: Option<
    (u32, i128),
>)
    requires
        node.wf(),
    ensures
        match r {
            Some(pc) => {
                &&& (best == Some(pc) || (node.lmap().dom().contains(pc.0) && f.spec_leaf_cost(
                    node.lmap()[pc.0],
                    pc.0,
                ) == Some(pc.1)))
                &&& (best is Some ==> pc.1 <= best->Some_0.1)
                &&& forall|p2: u32|
                    node.lmap().dom().contains(p2) && (#[trigger] f.spec_leaf_cost(
                        node.lmap()[p2],
                        p2,
                    )) is Some ==> pc.1 <= f.spec_leaf_cost(node.lmap()[p2], p2)->Some_0
            },
            None => best is None && forall|p2: u32|
                node.lmap().dom().contains(p2) ==> (#[trigger] f.spec_leaf_cost(
                    node.lmap()[p2],
                    p2,
                )) is None,
        },
    decreases node,
{
    let node_bv: Aabb = match node {
        DbvtNode::Leaf { bv, .. } => *bv,
        DbvtNode::Internal { bv, .. } => *bv,
    };
    proof {
        node.lemma_wf_bv();
    }
    match best {
        Some(b) => {
            let cb = f.compute_bv_cost(&node_bv);
            if cb >= b.1 {
                proof {
                    assert forall|p2: u32|
                        node.lmap().dom().contains(p2) && (#[trigger] f.spec_leaf_cost(
                            node.lmap()[p2],
                            p2,
                        )) is Some implies b.1 <= f.spec_leaf_cost(node.lmap()[p2], p2)->Some_0 by {
                        node.lemma_leaf_in_node_bv(p2);
                        f.admissibility(node_bv, node.lmap()[p2], p2);
                    }
                }
                return best;
            }
        },
        None => {},
    }
    match node {
        DbvtNode::Leaf { bv, payload } => {
            match f.compute_leaf_cost(bv, *payload) {
                Some(c) => {
                    let take = match best {
                        Some(b) => c < b.1,
                        None => true,
                    };
                    if take {
                        Some((*payload, c))
                    } else {
                        best
                    }
                },
                None => best,
            }
        },
        DbvtNode::Internal { left, right, .. } => {
            let b1 = best_node(&**left, f, best);
            let b2 = best_node(&**right, f, b1);
            proof {
                match b2 {
                    Some(pc) => {
                        assert forall|p2: u32|
                            node.lmap().dom().contains(p2) && (#[trigger] f.spec_leaf_cost(
                                node.lmap()[p2],
                                p2,
                            )) is Some implies pc.1 <= f.spec_leaf_cost(
                            node.lmap()[p2],
                            p2,
                        )->Some_0 by {
                            if right.lmap().dom().contains(p2) {
                                assert(node.lmap()[p2] == right.lmap()[p2]);
                            } else {
                                assert(left.lmap().dom().contains(p2));
                                assert(node.lmap()[p2] == left.lmap()[p2]);
                                match b1 {
                                    Some(pc1) => {},
                                    None => {},
                                }
                            }
                        }
                    },
                    None => {},
                }
            }
            b2
        },
    }
}

impl Dbvt {
    /// Best-first search: the qualifying leaf of least exact cost, found by
    /// a depth-first descent that prunes every subtree whose box's
    /// lower-bound cost cannot beat the best exact cost seen.
    pub fn best_first_search<F: BvtCostFn>(&self, f: &F) -> (r: Option<(u32, i128)>)
        requires
            self.wf(),
        ensures
            match r {
                Some(pc) => {
                    &&& self.lmap().dom().contains(pc.0)
                    &&& f.spec_leaf_cost(self.lmap()[pc.0], pc.0) == Some(pc.1)
                    &&& forall|p2: u32|
                        self.lmap().dom().contains(p2) && (#[trigger] f.spec_leaf_cost(
                            self.lmap()[p2],
                            p2,
                        )) is Some ==> pc.1 <= f.spec_leaf_cost(self.lmap()[p2], p2)->Some_0
                },
                None => forall|p2: u32|
                    self.lmap().dom().contains(p2) ==> (#[trigger] f.spec_leaf_cost(
                        self.lmap()[p2],
                        p2,
                    )) is None,
            },
    {
        match &self.root {
            None => None,
            Some(n) => best_node(&**n, f, None),
        }
    }
}

/// The squared distance from a fixed point to a box: the nearest-leaf cost
/// function, used by proximity and feature queries.
pub struct PointDistanceCostFn {
    /// The query point.
    pub point: Vect,
}

/// Axis gaps saturate here: a query point farther than this many steps from
/// a box on some axis counts as exactly this far, so costs of remote boxes
/// tie instead of overflowing.
pub const GAP_SATURATION: i64 = 0x100_0000_0000;

/// The squared distance from `p` to the box `bv`, each axis clamped to the
/// box's extent and saturated at `GAP_SATURATION`.
pub open spec fn spec_point_box_dist_sq(p: Vect, bv: Aabb) -> int {
    let dx = axis_gap(p.x as int, bv.mins.x as int, bv.maxs.x as int);
    let dy = axis_gap(p.y as int, bv.mins.y as int, bv.maxs.y as int);
    let dz = axis_gap(p.z as int, bv.mins.z as int, bv.maxs.z as int);
    dx * dx + dy * dy + dz * dz
}

/// The distance from a coordinate to an interval, zero inside it, saturated.
pub open spec fn axis_gap(v: int, lo: int, hi: int) -> int {
    let g = if v < lo {
        lo - v
    } else if v > hi {
        v - hi
    } else {
        0
    };
    if g > GAP_SATURATION {
        GAP_SATURATION as int
    } else {
        g
    }
}

/// Computes one saturated axis gap.
fn axis_gap_exec(v: i64, lo: i64, hi: i64) -> (r: i64)
    requires
        lo <= hi,
    ensures
        r == axis_gap(v as int, lo as int, hi as int),
        0 <= r <= GAP_SATURATION,
{
    let g: i64 = if v < lo {
        if (lo as i128) - (v as i128) > GAP_SATURATION as i128 {
            GAP_SATURATION
        } else {
            lo - v
        }
    } else if v > hi {
        if (v as i128) - (hi as i128) > GAP_SATURATION as i128 {
            GAP_SATURATION
        } else {
            v - hi
        }
    } else {
        0
    };
    g
}

impl BvtCostFn for PointDistanceCostFn {
    open spec fn spec_bv_cost(&self, bv: Aabb) -> i128 {
        spec_point_box_dist_sq(self.point, bv) as i128
    }

    open spec fn spec_leaf_cost(&self, bv: Aabb, payload: u32) -> Option<i128> {
        Some(spec_point_box_dist_sq(self.point, bv) as i128)
    }

    fn compute_bv_cost(&self, bv: &Aabb) -> (r: i128) {
        point_box_dist_sq(&self.point, bv)
    }

    fn compute_leaf_cost(&self, bv: &Aabb, payload: u32) -> (r: Option<i128>) {
        Some(point_box_dist_sq(&self.point, bv))
    }

    proof fn admissibility(&self, outer: Aabb, inner: Aabb, payload: u32) {
        lemma_point_box_dist_monotone(self.point, outer, inner);
        lemma_point_box_dist_range(self.point, outer);
        lemma_point_box_dist_range(self.point, inner);
    }
}

/// Computes the squared distance from `p` to the box `bv`.
fn point_box_dist_sq(p: &Vect, bv: &Aabb) -> (r: i128)
    requires
        aabb_wf(*bv),
    ensures
        r == spec_point_box_dist_sq(*p, *bv) as i128,
{
    let dx: i64 = axis_gap_exec(p.x, bv.mins.x, bv.maxs.x);
    let dy: i64 = axis_gap_exec(p.y, bv.mins.y, bv.maxs.y);
    let dz: i64 = axis_gap_exec(p.z, bv.mins.z, bv.maxs.z);
    proof {
        crate::math::lemma_mul_bound(
            dx as int,
            dx as int,
            GAP_SATURATION as int,
            GAP_SATURATION as int,
        );
        crate::math::lemma_mul_bound(
            dy as int,
            dy as int,
            GAP_SATURATION as int,
            GAP_SATURATION as int,
        );
        crate::math::lemma_mul_bound(
            dz as int,
            dz as int,
            GAP_SATURATION as int,
            GAP_SATURATION as int,
        );
    }
    (dx as i128) * (dx as i128) + (dy as i128) * (dy as i128) + (dz as i128) * (dz as i128)
}

/// The saturated squared distance is non-negative and bounded.
proof fn lemma_point_box_dist_range(p: Vect, bv: Aabb)
    ensures
        0 <= spec_point_box_dist_sq(p, bv) <= 3 * (GAP_SATURATION as int) * (
        GAP_SATURATION as int),
{
    let dx = axis_gap(p.x as int, bv.mins.x as int, bv.maxs.x as int);
    let dy = axis_gap(p.y as int, bv.mins.y as int, bv.maxs.y as int);
    let dz = axis_gap(p.z as int, bv.mins.z as int, bv.maxs.z as int);
    assert(0 <= dx <= GAP_SATURATION && 0 <= dy <= GAP_SATURATION && 0 <= dz <= GAP_SATURATION);
    crate::math::lemma_mul_bound(dx, dx, GAP_SATURATION as int, GAP_SATURATION as int);
    crate::math::lemma_mul_bound(dy, dy, GAP_SATURATION as int, GAP_SATURATION as int);
    crate::math::lemma_mul_bound(dz, dz, GAP_SATURATION as int, GAP_SATURATION as int);
    assert(dx * dx >= 0 && dy * dy >= 0 && dz * dz >= 0) by (nonlinear_arith)
        requires
            dx >= 0,
            dy >= 0,
            dz >= 0,
    ;
}

/// Containment shrinks no axis gap, so the squared distance to an enclosing
/// box is a lower bound on the squared distance to any box within it.
proof fn lemma_point_box_dist_monotone(p: Vect, outer: Aabb, inner: Aabb)
    requires
        aabb_contains(outer, inner),
        aabb_wf(inner),
    ensures
        spec_point_box_dist_sq(p, outer) <= spec_point_box_dist_sq(p, inner),
{
    let ox = axis_gap(p.x as int, outer.mins.x as int, outer.maxs.x as int);
    let ix = axis_gap(p.x as int, inner.mins.x as int, inner.maxs.x as int);
    let oy = axis_gap(p.y as int, outer.mins.y as int, outer.maxs.y as int);
    let iy = axis_gap(p.y as int, inner.mins.y as int, inner.maxs.y as int);
    let oz = axis_gap(p.z as int, outer.mins.z as int, outer.maxs.z as int);
    let iz = axis_gap(p.z as int, inner.mins.z as int, inner.maxs.z as int);
    assert(0 <= ox <= ix && 0 <= oy <= iy && 0 <= oz <= iz);
    assert(ox * ox <= ix * ix) by (nonlinear_arith)
        requires
            0 <= ox <= ix,
    ;
    assert(oy * oy <= iy * iy) by (nonlinear_arith)
        requires
            0 <= oy <= iy,
    ;
    assert(oz * oz <= iz * iz) by (nonlinear_arith)
        requires
            0 <= oz <= iz,
    ;
}

} // verus!
