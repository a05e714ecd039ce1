//! The broad phase: a bounding-volume index that incrementally maintains the
//! set of overlapping loose bounding volumes as proxies move, and reports a
//! minimal delta of started and stopped overlaps at each update.

use vstd::prelude::*;
use crate::bounding_volume::{
    Aabb,
    aabb_wf,
    aabb_bounded,
    aabb_overlaps,
    aabb_contains,
    aabb_loosened,
    BV_BOUND,
};
use crate::math::MAX_COORD;
use crate::partitioning::Dbvt;

verus! {

/// Interaction filter consulted by the broad phase before it records a fresh
/// overlap: the pair is kept only when `allows` holds of the two proxies'
/// payloads.
pub trait BroadPhasePairFilter {
    /// Whether the payloads `a` and `b` may interact.
    spec fn allows(&self, a: u32, b: u32) -> bool;

    /// Decides whether the payloads `a` and `b` may interact.
    fn is_pair_valid(&self, a: u32, b: u32) -> (r: bool)
        ensures
            r == self.allows(a, b),
    ;
}

/// The filter accepting every pair, for broad phases driven directly.
pub struct AllPairsFilter;

impl BroadPhasePairFilter for AllPairsFilter {
    open spec fn allows(&self, a: u32, b: u32) -> bool {
        true
    }

    fn is_pair_valid(&self, a: u32, b: u32) -> (r: bool) {
        true
    }
}

/// One registered proxy: its payload, the loose box stored in the tree once
/// the proxy has been flushed there, and the pending tight box of a deferred
/// creation or move.
#[derive(Clone, Copy)]
struct BroadPhaseProxy {
    data: u32,
    bv: Aabb,
    in_tree: bool,
    pending: Option<Aabb>,
}

/// Whether the unordered pair `p` has an endpoint among `ids`.
pub open spec fn pair_touches(p: (u32, u32), ids: Seq<u32>) -> bool {
    ids.contains(p.0) || ids.contains(p.1)
}

/// The pairs of `cur` with an endpoint among `ids`, in order.
pub open spec fn purged_pairs(cur: Seq<(u32, u32)>, ids: Seq<u32>) -> Seq<(u32, u32)>
    decreases cur.len(),
{
    if cur.len() == 0 {
        Seq::empty()
    } else {
        let rest = purged_pairs(cur.drop_last(), ids);
        if pair_touches(cur.last(), ids) {
            rest.push(cur.last())
        } else {
            rest
        }
    }
}

/// The pairs of `cur` with no endpoint among `ids`, in order.
pub open spec fn kept_pairs(cur: Seq<(u32, u32)>, ids: Seq<u32>) -> Seq<(u32, u32)>
    decreases cur.len(),
{
    if cur.len() == 0 {
        Seq::empty()
    } else {
        let rest = kept_pairs(cur.drop_last(), ids);
        if !pair_touches(cur.last(), ids) {
            rest.push(cur.last())
        } else {
            rest
        }
    }
}

/// Elements of `kept_pairs` are exactly the elements of `cur` not touching
/// `ids`, kept in order and without new repetitions; `purged_pairs` holds the
/// complement.
pub proof fn lemma_split_pairs_props(cur: Seq<(u32, u32)>, ids: Seq<u32>)
    ensures
        forall|j: int|
            0 <= j < kept_pairs(cur, ids).len() ==> cur.contains(#[trigger] kept_pairs(cur, ids)[j])
                && !pair_touches(kept_pairs(cur, ids)[j], ids),
        forall|j: int|
            0 <= j < purged_pairs(cur, ids).len() ==> cur.contains(
                #[trigger] purged_pairs(cur, ids)[j],
            ) && pair_touches(purged_pairs(cur, ids)[j], ids),
        forall|p: (u32, u32)|
            #[trigger] kept_pairs(cur, ids).contains(p) <==> (cur.contains(p) && !pair_touches(
                p,
                ids,
            )),
        forall|p: (u32, u32)|
            #[trigger] purged_pairs(cur, ids).contains(p) <==> (cur.contains(p) && pair_touches(
                p,
                ids,
            )),
        cur.no_duplicates() ==> kept_pairs(cur, ids).no_duplicates(),
    decreases cur.len(),
{
    if cur.len() == 0 {
        assert(forall|p: (u32, u32)| !cur.contains(p));
    } else {
        let head = cur.drop_last();
        lemma_split_pairs_props(head, ids);
        assert(cur =~= head.push(cur.last()));
        if pair_touches(cur.last(), ids) {
            assert(kept_pairs(cur, ids) == kept_pairs(head, ids));
            assert(purged_pairs(cur, ids) == purged_pairs(head, ids).push(cur.last()));
        } else {
            assert(kept_pairs(cur, ids) == kept_pairs(head, ids).push(cur.last()));
            assert(purged_pairs(cur, ids) == purged_pairs(head, ids));
        }
        assert forall|p: (u32, u32)| #[trigger] cur.contains(p) implies head.contains(p) || p
            == cur.last() by {
            let j = choose|j: int| 0 <= j < cur.len() && cur[j] == p;
            if j < head.len() {
                assert(head[j] == p);
            }
        }
        assert forall|p: (u32, u32)| head.contains(p) implies cur.contains(p) by {
            let j = choose|j: int| 0 <= j < head.len() && head[j] == p;
            assert(cur[j] == p);
        }
        assert(cur.contains(cur.last()));
        assert forall|p: (u32, u32)| #[trigger] kept_pairs(cur, ids).contains(p) implies (
        cur.contains(p) && !pair_touches(p, ids)) by {
            let j = choose|j: int|
                0 <= j < kept_pairs(cur, ids).len() && (#[trigger] kept_pairs(cur, ids)[j]) == p;
            if j < kept_pairs(head, ids).len() {
                assert(kept_pairs(head, ids)[j] == p);
                assert(kept_pairs(head, ids).contains(p));
            }
        }
        assert forall|p: (u32, u32)| cur.contains(p) && !pair_touches(p, ids) implies
            #[trigger] kept_pairs(cur, ids).contains(p) by {
            if head.contains(p) {
                assert(kept_pairs(head, ids).contains(p));
                let j = choose|j: int|
                    0 <= j < kept_pairs(head, ids).len() && (#[trigger] kept_pairs(head, ids)[j])
                        == p;
                assert(kept_pairs(cur, ids)[j] == p);
            } else {
                assert(p == cur.last());
                assert(kept_pairs(cur, ids).last() == p);
            }
        }
        assert forall|p: (u32, u32)| #[trigger] purged_pairs(cur, ids).contains(p) implies (
        cur.contains(p) && pair_touches(p, ids)) by {
            let j = choose|j: int|
                0 <= j < purged_pairs(cur, ids).len() && (#[trigger] purged_pairs(cur, ids)[j])
                    == p;
            if j < purged_pairs(head, ids).len() {
                assert(purged_pairs(head, ids)[j] == p);
                assert(purged_pairs(head, ids).contains(p));
            }
        }
        assert forall|p: (u32, u32)| cur.contains(p) && pair_touches(p, ids) implies
            #[trigger] purged_pairs(cur, ids).contains(p) by {
            if head.contains(p) {
                assert(purged_pairs(head, ids).contains(p));
                let j = choose|j: int|
                    0 <= j < purged_pairs(head, ids).len() && (#[trigger] purged_pairs(head, ids)[j])
                        == p;
                assert(purged_pairs(cur, ids)[j] == p);
            } else {
                assert(p == cur.last());
                assert(purged_pairs(cur, ids).last() == p);
            }
        }
        if cur.no_duplicates() {
            assert forall|i2: int, j2: int|
                0 <= i2 < head.len() && 0 <= j2 < head.len() && i2 != j2 implies head[i2]
                != head[j2] by {
                assert(cur[i2] == head[i2] && cur[j2] == head[j2]);
            }
            assert(head.no_duplicates());
            if !pair_touches(cur.last(), ids) {
                assert(!head.contains(cur.last())) by {
                    if head.contains(cur.last()) {
                        let j = choose|j: int| 0 <= j < head.len() && head[j] == cur.last();
                        assert(cur[j] == cur[cur.len() - 1]);
                    }
                }
                assert(!kept_pairs(head, ids).contains(cur.last()));
            }
        }
    }
}

/// The elements of `a` absent from `b`, in the order of `a`.
pub open spec fn ordered_diff(a: Seq<(u32, u32)>, b: Seq<(u32, u32)>) -> Seq<(u32, u32)>
    decreases a.len(),
{
    if a.len() == 0 {
        Seq::empty()
    } else {
        let rest = ordered_diff(a.drop_last(), b);
        if !b.contains(a.last()) {
            rest.push(a.last())
        } else {
            rest
        }
    }
}

/// Whether `x` occurs in `v`.
fn contains_id(v: &Vec<u32>, x: u32) -> (r: bool)
    ensures
        r == v@.contains(x),
{
    let mut i: usize = 0;
    while i < v.len()
        invariant
            0 <= i <= v@.len(),
            forall|j: int| 0 <= j < i ==> v@[j] != x,
        decreases v@.len() - i,
    {
        if v[i] == x {
            return true;
        }
        i += 1;
    }
    false
}

/// Whether the pair `(a, b)` occurs in `v`.
fn contains_pair(v: &Vec<(u32, u32)>, a: u32, b: u32) -> (r: bool)
    ensures
        r == v@.contains((a, b)),
{
    let mut i: usize = 0;
    while i < v.len()
        invariant
            0 <= i <= v@.len(),
            forall|j: int| 0 <= j < i ==> v@[j] != (a, b),
        decreases v@.len() - i,
    {
        let p = v[i];
        if p.0 == a && p.1 == b {
            return true;
        }
        i += 1;
    }
    false
}

/// A broad phase based on a dynamic bounding-volume tree.
///
/// Proxy creations and box changes are deferred: they take effect at the next
/// `update`, which flushes them into the tree, recomputes the overlap set and
/// reports its delta.  Proxy removal is immediate.
pub struct DbvtBroadPhase {
    proxies: Vec<Option<BroadPhaseProxy>>,
    free: Vec<u32>,
    tree: Dbvt,
    current: Vec<(u32, u32)>,
    margin: i64,
}

impl DbvtBroadPhase {
    /// The looseness margin.
    pub closed spec fn spec_margin(self) -> i64 {
        self.margin
    }

    /// The number of proxy slots ever allocated (live or reusable).
    pub closed spec fn spec_num_slots(self) -> nat {
        self.proxies@.len()
    }

    /// Whether `id` names a live proxy.
    pub closed spec fn is_active(self, id: u32) -> bool {
        id < self.proxies@.len() && self.proxies@[id as int] is Some
    }

    /// The payload of the live proxy `id`.
    pub closed spec fn data_of(self, id: u32) -> u32 {
        self.proxies@[id as int]->Some_0.data
    }

    /// Whether the live proxy `id` has a leaf in the tree.
    pub closed spec fn has_leaf(self, id: u32) -> bool {
        self.proxies@[id as int]->Some_0.in_tree
    }

    /// The loose box stored in the tree for the proxy `id`.
    pub closed spec fn loose_bv(self, id: u32) -> Aabb {
        self.proxies@[id as int]->Some_0.bv
    }

    /// The pending tight box of the proxy `id`, if a creation or a deferred
    /// move awaits the next update.
    pub closed spec fn pending_of(self, id: u32) -> Option<Aabb> {
        self.proxies@[id as int]->Some_0.pending
    }

    /// The overlap set as last computed, in its stored order.
    pub closed spec fn spec_current(self) -> Seq<(u32, u32)> {
        self.current@
    }

    /// The overlap set as last computed.
    pub open spec fn pairs(self) -> Set<(u32, u32)> {
        self.spec_current().to_set()
    }

    /// Whether the next update will reinsert the proxy `id`: a pending box
    /// awaits it and either the proxy is not in the tree yet (a fresh
    /// creation) or the pending tight box escapes the stored loose box.
    pub open spec fn will_move(self, id: u32) -> bool {
        self.is_active(id) && match self.pending_of(id) {
            Some(t) => !(self.has_leaf(id) && aabb_contains(self.loose_bv(id), t)),
            None => false,
        }
    }

    /// The loose box the proxy `id` will carry after the next update: the
    /// pending tight box inflated by the margin when the proxy moves, the
    /// stored loose box otherwise.
    pub open spec fn post_loose(self, id: u32) -> Aabb {
        if self.will_move(id) {
            aabb_loosened(self.pending_of(id)->Some_0, self.spec_margin() as int)
        } else {
            self.loose_bv(id)
        }
    }

    /// A pair the next update discovers afresh: ordered, live, with a moved
    /// endpoint, overlapping loose boxes after the update, and admitted by
    /// the filter.
    pub open spec fn fresh_pair_ok<F: BroadPhasePairFilter>(self, f: F, a: u32, b: u32) -> bool {
        &&& a < b
        &&& self.is_active(a) && self.is_active(b)
        &&& self.will_move(a) || self.will_move(b)
        &&& aabb_overlaps(self.post_loose(a), self.post_loose(b))
        &&& f.allows(self.data_of(a), self.data_of(b))
    }

    /// A pair the next update carries forward: already in the overlap set,
    /// with neither endpoint moving.
    pub open spec fn carried_pair(self, a: u32, b: u32) -> bool {
        self.pairs().contains((a, b)) && !self.will_move(a) && !self.will_move(b)
    }

    /// A pair of the overlap set after the next update.
    pub open spec fn post_pair<F: BroadPhasePairFilter>(self, f: F, a: u32, b: u32) -> bool {
        self.fresh_pair_ok(f, a, b) || self.carried_pair(a, b)
    }

    /// An ordered live pair with a `moved` endpoint, overlapping loose boxes
    /// and the filter's consent, stated over the present state (used between
    /// the flush and the delta computation of one update).
    pub open spec fn overlap_pair_ok<F: BroadPhasePairFilter>(
        self,
        f: F,
        moved: Seq<u32>,
        a: u32,
        b: u32,
    ) -> bool {
        &&& a < b
        &&& self.is_active(a) && self.is_active(b)
        &&& moved.contains(a) || moved.contains(b)
        &&& aabb_overlaps(self.loose_bv(a), self.loose_bv(b))
        &&& f.allows(self.data_of(a), self.data_of(b))
    }

    /// Every live proxy stands in the tree under its loose box.
    closed spec fn flushed(self) -> bool {
        &&& self.tree.wf()
        &&& 0 <= self.margin <= MAX_COORD
        &&& (forall|o: u32|
            #[trigger] self.tree.lmap().dom().contains(o) <==> (self.is_active(o) && self.has_leaf(
                o,
            )))
        &&& (forall|o: u32| self.is_active(o) ==> #[trigger] self.has_leaf(o))
        &&& (forall|o: u32|
            self.is_active(o) ==> #[trigger] self.tree.lmap()[o] == self.loose_bv(o))
        &&& (forall|o: u32|
            self.is_active(o) ==> aabb_wf(#[trigger] self.loose_bv(o)) && aabb_bounded(
                self.loose_bv(o),
                BV_BOUND as int,
            ))
    }

    /// A pair the overlap set may hold: ordered, both endpoints in the tree,
    /// and their loose boxes overlapping.
    pub open spec fn pair_ok(self, p: (u32, u32)) -> bool {
        &&& p.0 < p.1
        &&& self.is_active(p.0) && self.has_leaf(p.0)
        &&& self.is_active(p.1) && self.has_leaf(p.1)
        &&& aabb_overlaps(self.loose_bv(p.0), self.loose_bv(p.1))
    }

    /// Everything but the overlap condition on stored pairs: slab, free list,
    /// tree and pending bookkeeping.
    closed spec fn wf_base(self) -> bool {
        let n = self.proxies@.len();
        &&& 0 <= self.margin <= MAX_COORD
        &&& n <= 0xFFFF_FFFF
        &&& (forall|k: int|
            0 <= k < self.free@.len() ==> (#[trigger] self.free@[k]) < n && self.proxies@[self.free@[k] as int] is None)
        &&& self.free@.no_duplicates()
        &&& self.tree.wf()
        &&& (forall|id: u32|
            #[trigger] self.tree.lmap().dom().contains(id) <==> (self.is_active(id)
                && self.has_leaf(id)))
        &&& (forall|id: u32|
            self.is_active(id) && self.has_leaf(id) ==> #[trigger] self.tree.lmap()[id]
                == self.loose_bv(id))
        &&& (forall|id: u32|
            self.is_active(id) && self.has_leaf(id) ==> aabb_wf(#[trigger] self.loose_bv(id))
                && aabb_bounded(self.loose_bv(id), BV_BOUND as int))
        &&& (forall|id: u32|
            self.is_active(id) && (#[trigger] self.pending_of(id)) is Some ==> aabb_wf(
                self.pending_of(id)->Some_0,
            ) && aabb_bounded(self.pending_of(id)->Some_0, 3 * MAX_COORD as int))
        &&& (forall|id: u32|
            self.is_active(id) && !(#[trigger] self.has_leaf(id)) ==> self.pending_of(id) is Some)
        &&& (forall|k: int|
            0 <= k < self.current@.len() ==> (#[trigger] self.current@[k]).0
                < self.current@[k].1 && self.is_active(self.current@[k].0) && self.has_leaf(
                self.current@[k].0,
            ) && self.is_active(self.current@[k].1) && self.has_leaf(self.current@[k].1))
        &&& self.current@.no_duplicates()
    }

    /// Every stored pair's loose boxes overlap.
    closed spec fn pairs_overlap(self) -> bool {
        forall|k: int|
            0 <= k < self.current@.len() ==> aabb_overlaps(
                self.loose_bv((#[trigger] self.current@[k]).0),
                self.loose_bv(self.current@[k].1),
            )
    }

    /// The broad phase's invariant.
    pub closed spec fn wf(self) -> bool {
        self.wf_base() && self.pairs_overlap()
    }

    /// The proxy `id` is registered alike in `a` and `b`: same liveness and,
    /// when live, same payload, tree status, loose box and pending box.
    pub open spec fn same_proxy(a: DbvtBroadPhase, b: DbvtBroadPhase, id: u32) -> bool {
        &&& a.is_active(id) == b.is_active(id)
        &&& a.is_active(id) ==> {
            &&& a.data_of(id) == b.data_of(id)
            &&& a.has_leaf(id) == b.has_leaf(id)
            &&& a.loose_bv(id) == b.loose_bv(id)
            &&& a.pending_of(id) == b.pending_of(id)
        }
    }

    /// Every pair of the overlap set is ordered, live, and has overlapping
    /// loose boxes.
    pub proof fn lemma_pairs_ok(self)
        requires
            self.wf(),
        ensures
            forall|p: (u32, u32)| #[trigger] self.pairs().contains(p) ==> self.pair_ok(p),
    {
        assert forall|p: (u32, u32)| #[trigger] self.pairs().contains(p) implies self.pair_ok(
            p,
        ) by {
            let k = choose|k: int|
                0 <= k < self.spec_current().len() && self.spec_current()[k] == p;
            assert(self.current@[k] == p);
        }
    }

    /// A pair stands in the overlap set exactly when the stored list holds
    /// it.
    pub proof fn lemma_pairs_is_current(self, p: (u32, u32))
        ensures
            self.pairs().contains(p) <==> self.spec_current().contains(p),
    {
        broadcast use vstd::set::group_set_axioms;

    }

    /// Builds a broad phase with the given looseness margin.
    pub fn new(margin: i64) -> (r: DbvtBroadPhase)
        requires
            0 <= margin <= MAX_COORD,
        ensures
            r.wf(),
            r.spec_margin() == margin,
            r.spec_current() == Seq::<(u32, u32)>::empty(),
            forall|id: u32| !r.is_active(id),
    {
        DbvtBroadPhase {
            proxies: Vec::new(),
            free: Vec::new(),
            tree: Dbvt::new(),
            current: Vec::new(),
            margin,
        }
    }

    /// The number of proxy slots ever allocated, live or reusable.
    pub fn num_proxy_slots(&self) -> (r: usize)
        ensures
            r == self.spec_num_slots(),
    {
        self.proxies.len()
    }

    /// Whether `id` names a live proxy.
    pub fn is_proxy_active(&self, id: u32) -> (r: bool)
        ensures
            r == self.is_active(id),
    {
        (id as usize) < self.proxies.len() && self.proxies[id as usize].is_some()
    }

    /// The payload of the live proxy `id`.
    pub fn proxy_data(&self, id: u32) -> (r: u32)
        requires
            self.is_active(id),
        ensures
            r == self.data_of(id),
    {
        let p = &self.proxies[id as usize];
        match p {
            Some(p) => p.data,
            None => unreached(),
        }
    }

    /// The payloads of the live proxies whose loose box overlaps `bv`, in
    /// tree-traversal order.
    pub fn interferences_with_bounding_volume(&self, bv: &Aabb) -> (r: Vec<u32>)
        requires
            self.wf(),
        ensures
            forall|h: u32|
                #[trigger] r@.contains(h) <==> exists|id: u32|
                    self.is_active(id) && self.has_leaf(id) && aabb_overlaps(
                        #[trigger] self.loose_bv(id),
                        *bv,
                    ) && self.data_of(id) == h,
    {
        let ids: Vec<u32> = self.tree.visit_overlapping(bv);
        let mut out: Vec<u32> = Vec::new();
        let n: usize = ids.len();
        let mut i: usize = 0;
        while i < n
            invariant
                self.wf(),
                n == ids@.len(),
                0 <= i <= n,
                forall|p: u32|
                    #[trigger] ids@.contains(p) <==> (self.tree.lmap().dom().contains(p)
                        && aabb_overlaps(self.tree.lmap()[p], *bv)),
                forall|h: u32|
                    #[trigger] out@.contains(h) <==> exists|j: int|
                        0 <= j < i && self.data_of(#[trigger] ids@[j]) == h,
            decreases n - i,
        {
            let id = ids[i];
            proof {
                assert(ids@.contains(id));
            }
            let ghost out_before = out@;
            out.push(self.proxy_data(id));
            proof {
                assert forall|h: u32| #[trigger] out@.contains(h) implies exists|j: int|
                    0 <= j < i + 1 && self.data_of(#[trigger] ids@[j]) == h by {
                    let k = choose|k: int| 0 <= k < out@.len() && (#[trigger] out@[k]) == h;
                    if k < out_before.len() {
                        assert(out_before[k] == h);
                        assert(out_before.contains(h));
                    } else {
                        assert(self.data_of(ids@[i as int]) == h);
                    }
                }
                assert forall|h: u32|
                    (exists|j: int| 0 <= j < i + 1 && self.data_of(#[trigger] ids@[j]) == h)
                        implies #[trigger] out@.contains(h) by {
                    let j = choose|j: int| 0 <= j < i + 1 && self.data_of(#[trigger] ids@[j]) == h;
                    if j < i {
                        assert(out_before.contains(h));
                        let k = choose|k: int|
                            0 <= k < out_before.len() && (#[trigger] out_before[k]) == h;
                        assert(out@[k] == h);
                    } else {
                        assert(out@.last() == h);
                    }
                }
            }
            i += 1;
        }
        proof {
            assert forall|h: u32| #[trigger] out@.contains(h) implies exists|id: u32|
                self.is_active(id) && self.has_leaf(id) && aabb_overlaps(
                    #[trigger] self.loose_bv(id),
                    *bv,
                ) && self.data_of(id) == h by {
                let j = choose|j: int| 0 <= j < n && self.data_of(#[trigger] ids@[j]) == h;
                assert(ids@.contains(ids@[j]));
                assert(self.tree.lmap()[ids@[j]] == self.loose_bv(ids@[j]));
            }
            assert forall|h: u32|
                (exists|id: u32|
                    self.is_active(id) && self.has_leaf(id) && aabb_overlaps(
                        #[trigger] self.loose_bv(id),
                        *bv,
                    ) && self.data_of(id) == h) implies #[trigger] out@.contains(h) by {
                let id = choose|id: u32|
                    self.is_active(id) && self.has_leaf(id) && aabb_overlaps(
                        #[trigger] self.loose_bv(id),
                        *bv,
                    ) && self.data_of(id) == h;
                assert(self.tree.lmap().dom().contains(id));
                assert(self.tree.lmap()[id] == self.loose_bv(id));
                assert(ids@.contains(id));
                let j = choose|j: int| 0 <= j < n && (#[trigger] ids@[j]) == id;
            }
        }
        out
    }

    /// The number of pairs in the overlap set as last computed.
    pub fn num_interferences(&self) -> (r: usize)
        ensures
            r == self.spec_current().len(),
    {
        self.current.len()
    }

    /// Registers a proxy for `bv` with payload `data` and returns its
    /// identifier at once; the tree is only touched at the next update.
    pub fn create_proxy(&mut self, bv: Aabb, data: u32) -> (r: u32)
        requires
            old(self).wf(),
            aabb_wf(bv),
            aabb_bounded(bv, 3 * MAX_COORD as int),
            old(self).spec_num_slots() < 0xFFFF_FFFF,
        ensures
            final(self).wf(),
            !old(self).is_active(r),
            final(self).is_active(r),
            final(self).data_of(r) == data,
            final(self).pending_of(r) == Some(bv),
            !final(self).has_leaf(r),
            forall|id: u32| id != r ==> #[trigger] DbvtBroadPhase::same_proxy(*old(self), *final(self), id),
            final(self).spec_current() == old(self).spec_current(),
            final(self).spec_margin() == old(self).spec_margin(),
    {
        let proxy = BroadPhaseProxy { data, bv, in_tree: false, pending: Some(bv) };
        let id: u32 = match self.free.pop() {
            Some(id) => {
                self.proxies[id as usize] = Some(proxy);
                id
            },
            None => {
                let id = self.proxies.len() as u32;
                self.proxies.push(Some(proxy));
                id
            },
        };
        proof {
            assert forall|k: int|
                0 <= k < self.free@.len() implies (#[trigger] self.free@[k])
                < self.proxies@.len() && self.proxies@[self.free@[k] as int] is None by {
                assert(old(self).free@[k] == self.free@[k]);
            }
            self.lemma_one_slot_changed(*old(self), id);
        }
        id
    }

    /// After a mutation touching only the slot `id`, the invariant carries
    /// over from `pre` once the changed slot itself is accounted for.
    proof fn lemma_one_slot_changed(self, pre: DbvtBroadPhase, id: u32)
        requires
            pre.wf(),
            self.tree == pre.tree,
            self.current == pre.current,
            self.margin == pre.margin,
            self.proxies@.len() >= pre.proxies@.len(),
            self.proxies@.len() <= 0xFFFF_FFFF,
            forall|o: u32|
                o != id && o < self.proxies@.len() ==> o < pre.proxies@.len()
                    && #[trigger] self.proxies@[o as int] == pre.proxies@[o as int],
            forall|k: int|
                0 <= k < self.free@.len() ==> (#[trigger] self.free@[k]) < self.proxies@.len()
                    && self.proxies@[self.free@[k] as int] is None,
            self.free@.no_duplicates(),
            self.tree.lmap().dom().contains(id) <==> (self.is_active(id) && self.has_leaf(id)),
            self.is_active(id) && self.has_leaf(id) ==> self.tree.lmap()[id] == self.loose_bv(id)
                && aabb_wf(self.loose_bv(id)) && aabb_bounded(self.loose_bv(id), BV_BOUND as int),
            self.is_active(id) && self.pending_of(id) is Some ==> aabb_wf(
                self.pending_of(id)->Some_0,
            ) && aabb_bounded(self.pending_of(id)->Some_0, 3 * MAX_COORD as int),
            self.is_active(id) && !self.has_leaf(id) ==> self.pending_of(id) is Some,
            pre.is_active(id) ==> self.is_active(id) && self.has_leaf(id) == pre.has_leaf(id)
                && self.loose_bv(id) == pre.loose_bv(id),
        ensures
            self.wf(),
            forall|o: u32|
                o != id ==> #[trigger] DbvtBroadPhase::same_proxy(pre, self, o),
    {
        assert forall|o: u32| o != id implies #[trigger] DbvtBroadPhase::same_proxy(
            pre,
            self,
            o,
        ) by {
            if o < self.proxies@.len() {
                assert(self.proxies@[o as int] == pre.proxies@[o as int]);
            }
        }
        assert forall|o: u32|
            #![trigger self.tree.lmap().dom().contains(o)]
            o != id implies (self.tree.lmap().dom().contains(o) <==> (self.is_active(o)
            && self.has_leaf(o))) by {
            assert(DbvtBroadPhase::same_proxy(pre, self, o));
        }
        assert forall|o: u32|
            o != id && self.is_active(o) && self.has_leaf(o) implies #[trigger] self.tree.lmap()[o]
            == self.loose_bv(o) by {
            assert(DbvtBroadPhase::same_proxy(pre, self, o));
        }
        assert forall|o: u32|
            o != id && self.is_active(o) && self.has_leaf(o) implies aabb_wf(
            #[trigger] self.loose_bv(o),
        ) && aabb_bounded(self.loose_bv(o), BV_BOUND as int) by {
            assert(DbvtBroadPhase::same_proxy(pre, self, o));
        }
        assert forall|o: u32|
            o != id && self.is_active(o) && (#[trigger] self.pending_of(o)) is Some implies aabb_wf(
            self.pending_of(o)->Some_0,
        ) && aabb_bounded(self.pending_of(o)->Some_0, 3 * MAX_COORD as int) by {
            assert(DbvtBroadPhase::same_proxy(pre, self, o));
        }
        assert forall|o: u32|
            o != id && self.is_active(o) && !(#[trigger] self.has_leaf(o)) implies self.pending_of(
            o,
        ) is Some by {
            assert(DbvtBroadPhase::same_proxy(pre, self, o));
        }
        assert forall|k: int|
            0 <= k < self.current@.len() implies (#[trigger] self.current@[k]).0
            < self.current@[k].1 && self.is_active(self.current@[k].0) && self.has_leaf(
            self.current@[k].0,
        ) && self.is_active(self.current@[k].1) && self.has_leaf(self.current@[k].1)
            && aabb_overlaps(
            self.loose_bv(self.current@[k].0),
            self.loose_bv(self.current@[k].1),
        ) by {
            assert(pre.current@[k] == self.current@[k]);
            let a = self.current@[k].0;
            let b = self.current@[k].1;
            if a != id {
                assert(DbvtBroadPhase::same_proxy(pre, self, a));
            }
            if b != id {
                assert(DbvtBroadPhase::same_proxy(pre, self, b));
            }
        }
    }

    /// Records that the proxy's tight box changed; coalesces with any prior
    /// pending change and takes effect at the next update.
    pub fn deferred_set_bounding_volume(&mut self, id: u32, bv: Aabb)
        requires
            old(self).wf(),
            old(self).is_active(id),
            aabb_wf(bv),
            aabb_bounded(bv, 3 * MAX_COORD as int),
        ensures
            final(self).wf(),
            final(self).is_active(id),
            final(self).data_of(id) == old(self).data_of(id),
            final(self).has_leaf(id) == old(self).has_leaf(id),
            old(self).has_leaf(id) ==> final(self).loose_bv(id) == old(self).loose_bv(id),
            final(self).pending_of(id) == Some(bv),
            forall|o: u32| o != id ==> #[trigger] DbvtBroadPhase::same_proxy(*old(self), *final(self), o),
            final(self).spec_current() == old(self).spec_current(),
            final(self).spec_margin() == old(self).spec_margin(),
    {
        let p = self.proxies[id as usize];
        match p {
            Some(p) => {
                self.proxies[id as usize] = Some(
                    BroadPhaseProxy { data: p.data, bv: p.bv, in_tree: p.in_tree, pending: Some(bv) },
                );
                proof {
                    self.lemma_one_slot_changed(*old(self), id);
                }
            },
            None => unreached(),
        }
    }

    /// Removes the given proxies at once: their leaves leave the tree, every
    /// overlap involving one of them is purged from the overlap set, and the
    /// purged pairs are reported as pairs of payloads, in stored order.
    pub fn remove(&mut self, ids: &Vec<u32>) -> (r: Vec<(u32, u32)>)
        requires
            old(self).wf(),
            forall|k: int| 0 <= k < ids@.len() ==> old(self).is_active(#[trigger] ids@[k]),
            ids@.no_duplicates(),
        ensures
            final(self).wf(),
            forall|o: u32| ids@.contains(o) ==> !final(self).is_active(o),
            forall|o: u32|
                !ids@.contains(o) ==> #[trigger] DbvtBroadPhase::same_proxy(
                    *old(self),
                    *final(self),
                    o,
                ),
            final(self).spec_current() == kept_pairs(old(self).spec_current(), ids@),
            r@.len() == purged_pairs(old(self).spec_current(), ids@).len(),
            forall|j: int|
                0 <= j < r@.len() ==> #[trigger] r@[j] == (
                    old(self).data_of(purged_pairs(old(self).spec_current(), ids@)[j].0),
                    old(self).data_of(purged_pairs(old(self).spec_current(), ids@)[j].1),
                ),
            final(self).spec_margin() == old(self).spec_margin(),
    {
        let ghost pre = *self;
        // Split the overlap set and capture the payloads of purged pairs
        // while every proxy is still live.
        let mut purged: Vec<(u32, u32)> = Vec::new();
        let mut kept: Vec<(u32, u32)> = Vec::new();
        let n_cur: usize = self.current.len();
        let mut k: usize = 0;
        while k < n_cur
            invariant
                *self == pre,
                pre.wf(),
                forall|j: int| 0 <= j < ids@.len() ==> pre.is_active(#[trigger] ids@[j]),
                n_cur == pre.spec_current().len(),
                0 <= k <= n_cur,
                kept@ == kept_pairs(pre.spec_current().take(k as int), ids@),
                purged@.len() == purged_pairs(pre.spec_current().take(k as int), ids@).len(),
                forall|j: int|
                    0 <= j < purged@.len() ==> #[trigger] purged@[j] == (
                        pre.data_of(purged_pairs(pre.spec_current().take(k as int), ids@)[j].0),
                        pre.data_of(purged_pairs(pre.spec_current().take(k as int), ids@)[j].1),
                    ),
            decreases n_cur - k,
        {
            let p = self.current[k];
            proof {
                let taken = pre.spec_current().take(k as int + 1);
                assert(taken.drop_last() =~= pre.spec_current().take(k as int));
                assert(taken.last() == pre.spec_current()[k as int]);
                lemma_split_pairs_props(pre.spec_current().take(k as int), ids@);
            }
            if contains_id(ids, p.0) || contains_id(ids, p.1) {
                let d0 = self.proxy_data(p.0);
                let d1 = self.proxy_data(p.1);
                purged.push((d0, d1));
            } else {
                kept.push(p);
            }
            k += 1;
        }
        proof {
            assert(pre.spec_current().take(n_cur as int) =~= pre.spec_current());
        }
        // Detach the removed proxies from the tree and recycle their slots.
        let n_ids: usize = ids.len();
        let mut i: usize = 0;
        while i < n_ids
            invariant
                n_ids == ids@.len(),
                0 <= i <= n_ids,
                pre.wf(),
                forall|j: int| 0 <= j < ids@.len() ==> pre.is_active(#[trigger] ids@[j]),
                ids@.no_duplicates(),
                self.proxies@.len() == pre.proxies@.len(),
                self.margin == pre.margin,
                self.current == pre.current,
                self.free@ == pre.free@ + ids@.take(i as int),
                forall|o: u32|
                    !ids@.take(i as int).contains(o) ==> #[trigger] DbvtBroadPhase::same_proxy(
                        pre,
                        *self,
                        o,
                    ),
                forall|o: u32| ids@.take(i as int).contains(o) ==> !self.is_active(o),
                self.tree.wf(),
                forall|o: u32|
                    #[trigger] self.tree.lmap().dom().contains(o) <==> (self.is_active(o)
                        && self.has_leaf(o)),
                forall|o: u32|
                    self.is_active(o) && self.has_leaf(o) ==> #[trigger] self.tree.lmap()[o]
                        == self.loose_bv(o),
            decreases n_ids - i,
        {
            let id = ids[i];
            proof {
                assert(!ids@.take(i as int).contains(id)) by {
                    if ids@.take(i as int).contains(id) {
                        let j = choose|j: int| 0 <= j < i && ids@.take(i as int)[j] == id;
                        assert(ids@[j] == ids@[i as int]);
                    }
                }
                assert(DbvtBroadPhase::same_proxy(pre, *self, id));
            }
            let ghost mid = *self;
            let p = self.proxies[id as usize];
            match p {
                Some(p) => {
                    if p.in_tree {
                        let _ = self.tree.remove(id);
                    }
                    self.proxies[id as usize] = None;
                    self.free.push(id);
                },
                None => {
                    proof {
                        assert(false);
                    }
                },
            }
            proof {
                assert(self.free@ =~= pre.free@ + ids@.take(i as int + 1));
                assert forall|o: u32| !ids@.take(i as int + 1).contains(o) implies
                    #[trigger] DbvtBroadPhase::same_proxy(pre, *self, o) by {
                    assert(!ids@.take(i as int).contains(o)) by {
                        if ids@.take(i as int).contains(o) {
                            let j = choose|j: int| 0 <= j < i && ids@.take(i as int)[j] == o;
                            assert(ids@.take(i as int + 1)[j] == o);
                        }
                    }
                    assert(o != id) by {
                        assert(ids@.take(i as int + 1)[i as int] == id);
                    }
                    assert(DbvtBroadPhase::same_proxy(pre, mid, o));
                    if (o as int) < self.proxies@.len() {
                        assert(mid.proxies@[o as int] == self.proxies@[o as int]);
                    }
                }
                assert forall|o: u32| ids@.take(i as int + 1).contains(o) implies !self.is_active(
                    o,
                ) by {
                    if o != id {
                        let j = choose|j: int|
                            0 <= j < i + 1 && (#[trigger] ids@.take(i as int + 1)[j]) == o;
                        assert(ids@.take(i as int)[j] == o);
                        assert(!mid.is_active(o));
                        if (o as int) < self.proxies@.len() {
                            assert(mid.proxies@[o as int] == self.proxies@[o as int]);
                        }
                    }
                }
                assert forall|o: u32|
                    #[trigger] self.tree.lmap().dom().contains(o) <==> (self.is_active(o)
                        && self.has_leaf(o)) by {
                    assert(mid.tree.lmap().dom().contains(o) <==> (mid.is_active(o)
                        && mid.has_leaf(o)));
                    if o != id && (o as int) < self.proxies@.len() {
                        assert(mid.proxies@[o as int] == self.proxies@[o as int]);
                    }
                }
                assert forall|o: u32|
                    self.is_active(o) && self.has_leaf(o) implies #[trigger] self.tree.lmap()[o]
                    == self.loose_bv(o) by {
                    assert(o != id);
                    assert(mid.proxies@[o as int] == self.proxies@[o as int]);
                }
            }
            i += 1;
        }
        proof {
            assert(ids@.take(n_ids as int) =~= ids@);
        }
        let ghost after_removal = *self;
        // Install the retained overlap set.
        self.current = kept;
        proof {
            assert forall|o: u32| !ids@.contains(o) implies #[trigger] DbvtBroadPhase::same_proxy(
                pre,
                *self,
                o,
            ) by {
                assert(DbvtBroadPhase::same_proxy(pre, after_removal, o));
            }
            assert forall|o: u32| ids@.contains(o) implies !self.is_active(o) by {
                assert(!after_removal.is_active(o));
            }
            assert forall|o: u32|
                #[trigger] self.tree.lmap().dom().contains(o) <==> (self.is_active(o)
                    && self.has_leaf(o)) by {
                assert(after_removal.tree.lmap().dom().contains(o) <==> (
                after_removal.is_active(o) && after_removal.has_leaf(o)));
            }
            assert forall|o: u32|
                self.is_active(o) && self.has_leaf(o) implies #[trigger] self.tree.lmap()[o]
                == self.loose_bv(o) by {
                assert(after_removal.is_active(o) && after_removal.has_leaf(o));
            }
            lemma_split_pairs_props(pre.spec_current(), ids@);
            assert forall|j: int|
                0 <= j < self.current@.len() implies self.pair_ok(#[trigger] self.current@[j]) by {
                let p = self.current@[j];
                assert(pre.spec_current().contains(p) && !pair_touches(p, ids@));
                let k2 = choose|k2: int|
                    0 <= k2 < pre.spec_current().len() && pre.spec_current()[k2] == p;
                assert(DbvtBroadPhase::same_proxy(pre, *self, p.0));
                assert(DbvtBroadPhase::same_proxy(pre, *self, p.1));
            }
            assert forall|o: u32|
                self.is_active(o) && self.has_leaf(o) implies aabb_wf(#[trigger] self.loose_bv(o))
                && aabb_bounded(self.loose_bv(o), BV_BOUND as int) by {
                assert(!ids@.contains(o));
                assert(DbvtBroadPhase::same_proxy(pre, *self, o));
            }
            assert forall|o: u32|
                self.is_active(o) && (#[trigger] self.pending_of(o)) is Some implies aabb_wf(
                self.pending_of(o)->Some_0,
            ) && aabb_bounded(self.pending_of(o)->Some_0, 3 * MAX_COORD as int) by {
                assert(!ids@.contains(o));
                assert(DbvtBroadPhase::same_proxy(pre, *self, o));
            }
            assert forall|o: u32|
                self.is_active(o) && !(#[trigger] self.has_leaf(o)) implies self.pending_of(
                o,
            ) is Some by {
                assert(!ids@.contains(o));
                assert(DbvtBroadPhase::same_proxy(pre, *self, o));
            }
            assert forall|k2: int|
                0 <= k2 < self.free@.len() implies (#[trigger] self.free@[k2])
                < self.proxies@.len() && self.proxies@[self.free@[k2] as int] is None by {
                if k2 < pre.free@.len() {
                    assert(self.free@[k2] == pre.free@[k2]);
                    assert(!ids@.contains(pre.free@[k2]));
                    assert(DbvtBroadPhase::same_proxy(pre, *self, pre.free@[k2]));
                } else {
                    assert(self.free@[k2] == ids@[k2 - pre.free@.len()]);
                    assert(ids@.contains(self.free@[k2]));
                }
            }
            assert(self.free@.no_duplicates()) by {
                assert forall|a: int, b: int|
                    0 <= a < self.free@.len() && 0 <= b < self.free@.len() && a
                    != b implies self.free@[a] != self.free@[b] by {
                    let fl = pre.free@.len() as int;
                    if a < fl && b < fl {
                    } else if a >= fl && b >= fl {
                        assert(ids@[a - fl] == self.free@[a] && ids@[b - fl] == self.free@[b]);
                    } else {
                        let fa = if a < fl { a } else { b };
                        let fb = if a < fl { b } else { a };
                        assert(self.free@[fa] == pre.free@[fa]);
                        assert(self.free@[fb] == ids@[fb - fl]);
                        assert(!pre.is_active(pre.free@[fa]));
                        assert(pre.is_active(ids@[fb - fl]));
                    }
                }
            }
        }
        purged
    }

    /// Applies every pending creation and move: each moving proxy is
    /// reinserted in the tree under its pending box inflated by the margin;
    /// returns the identifiers that moved.
    fn flush_pending(&mut self) -> (moved: Vec<u32>)
        requires
            old(self).wf(),
        ensures
            final(self).flushed(),
            forall|o: u32|
                (#[trigger] final(self).is_active(o)) == old(self).is_active(o),
            forall|o: u32|
                old(self).is_active(o) ==> (#[trigger] final(self).data_of(o)) == old(self).data_of(o) && final(self).pending_of(o) is None && final(self).loose_bv(o) == old(self).post_loose(o),
            moved@.no_duplicates(),
            forall|o: u32| #[trigger] moved@.contains(o) <==> old(self).will_move(o),
            final(self).spec_current() == old(self).spec_current(),
            final(self).spec_margin() == old(self).spec_margin(),
            final(self).spec_num_slots() == old(self).spec_num_slots(),
            final(self).free == old(self).free,
    {
        let ghost pre = *self;
        let mut moved: Vec<u32> = Vec::new();
        let n: usize = self.proxies.len();
        let mut i: usize = 0;
        while i < n
            invariant
                pre.wf(),
                n == pre.proxies@.len(),
                n <= 0xFFFF_FFFF,
                0 <= i <= n,
                self.proxies@.len() == n,
                self.margin == pre.margin,
                0 <= self.margin <= MAX_COORD,
                self.current == pre.current,
                self.free == pre.free,
                forall|o: u32| (#[trigger] self.is_active(o)) == pre.is_active(o),
                forall|o: u32|
                    pre.is_active(o) ==> (#[trigger] self.data_of(o)) == pre.data_of(o),
                forall|o: u32|
                    o < i && pre.is_active(o) ==> (#[trigger] self.has_leaf(o))
                        && self.pending_of(o) is None && self.loose_bv(o) == pre.post_loose(o),
                forall|o: u32|
                    i <= o < n ==> #[trigger] self.proxies@[o as int] == pre.proxies@[o as int],
                moved@.no_duplicates(),
                forall|o: u32| #[trigger] moved@.contains(o) <==> (o < i && pre.will_move(o)),
                self.tree.wf(),
                forall|o: u32|
                    #[trigger] self.tree.lmap().dom().contains(o) <==> (self.is_active(o)
                        && self.has_leaf(o)),
                forall|o: u32|
                    self.is_active(o) && self.has_leaf(o) ==> #[trigger] self.tree.lmap()[o]
                        == self.loose_bv(o),
                forall|o: u32|
                    self.is_active(o) && self.has_leaf(o) ==> aabb_wf(#[trigger] self.loose_bv(o))
                        && aabb_bounded(self.loose_bv(o), BV_BOUND as int),
                forall|o: u32|
                    self.is_active(o) && (#[trigger] self.pending_of(o)) is Some ==> aabb_wf(
                        self.pending_of(o)->Some_0,
                    ) && aabb_bounded(self.pending_of(o)->Some_0, 3 * MAX_COORD as int),
                forall|o: u32|
                    self.is_active(o) && !(#[trigger] self.has_leaf(o)) ==> self.pending_of(
                        o,
                    ) is Some,
            decreases n - i,
        {
            let ghost mid = *self;
            let id: u32 = i as u32;
            let popt = self.proxies[i];
            match popt {
                Some(p) => {
                    match p.pending {
                        Some(tight) => {
                            if p.in_tree && p.bv.contains(&tight) {
                                self.proxies[i] = Some(
                                    BroadPhaseProxy {
                                        data: p.data,
                                        bv: p.bv,
                                        in_tree: true,
                                        pending: None,
                                    },
                                );
                                proof {
                                    assert(!pre.will_move(id));
                                }
                            } else {
                                proof {
                                    assert(self.pending_of(id) == Some(tight));
                                    assert(aabb_wf(tight) && aabb_bounded(
                                        tight,
                                        3 * MAX_COORD as int,
                                    ));
                                }
                                if p.in_tree {
                                    let _ = self.tree.remove(id);
                                }
                                let loose = tight.loosened(self.margin);
                                self.tree.insert(loose, id);
                                self.proxies[i] = Some(
                                    BroadPhaseProxy {
                                        data: p.data,
                                        bv: loose,
                                        in_tree: true,
                                        pending: None,
                                    },
                                );
                                let ghost moved_before = moved@;
                                moved.push(id);
                                proof {
                                    assert(pre.will_move(id));
                                    assert(!moved_before.contains(id));
                                    assert(moved@ == moved_before.push(id));
                                    assert(moved@.no_duplicates()) by {
                                        assert forall|x: int, y: int|
                                            0 <= x < moved@.len() && 0 <= y < moved@.len() && x
                                            != y implies moved@[x] != moved@[y] by {
                                            let last = moved@.len() - 1;
                                            if x < last && y < last {
                                                assert(moved_before[x] == moved@[x]);
                                                assert(moved_before[y] == moved@[y]);
                                            } else {
                                                let w = if x < last { x } else { y };
                                                assert(moved_before[w] == moved@[w]);
                                                assert(moved_before.contains(moved@[w]));
                                            }
                                        }
                                    }
                                    assert forall|o: u32| #[trigger] moved@.contains(o) <==> (o < i
                                        + 1 && pre.will_move(o)) by {
                                        if moved@.contains(o) {
                                            let j = choose|j: int|
                                                0 <= j < moved@.len() && (#[trigger] moved@[j])
                                                    == o;
                                            if j < moved@.len() - 1 {
                                                assert(moved_before[j] == o);
                                                assert(moved_before.contains(o));
                                            } else {
                                                assert(o == id);
                                            }
                                        }
                                        if o < i + 1 && pre.will_move(o) {
                                            if o != id {
                                                assert(moved_before.contains(o));
                                                let j = choose|j: int|
                                                    0 <= j < moved_before.len() && (
                                                    #[trigger] moved_before[j]) == o;
                                                assert(moved@[j] == o);
                                            } else {
                                                assert(moved@.last() == id);
                                            }
                                        }
                                    }
                                }
                            }
                        },
                        None => {
                            proof {
                                assert(!pre.will_move(id));
                                assert(self.has_leaf(id));
                            }
                        },
                    }
                },
                None => {},
            }
            proof {
                assert forall|o: u32|
                    i + 1 <= o < n implies #[trigger] self.proxies@[o as int]
                    == pre.proxies@[o as int] by {
                    assert(mid.proxies@[o as int] == self.proxies@[o as int]);
                }
                assert forall|o: u32| (#[trigger] self.is_active(o)) == pre.is_active(o) by {
                    assert(mid.is_active(o) == pre.is_active(o));
                    if o != id && (o as int) < self.proxies@.len() {
                        assert(mid.proxies@[o as int] == self.proxies@[o as int]);
                    }
                }
                assert forall|o: u32|
                    pre.is_active(o) implies (#[trigger] self.data_of(o)) == pre.data_of(o) by {
                    assert(mid.is_active(o) == pre.is_active(o));
                    assert(mid.data_of(o) == pre.data_of(o));
                    if o != id {
                        assert(mid.proxies@[o as int] == self.proxies@[o as int]);
                    }
                }
                assert forall|o: u32|
                    o < i + 1 && pre.is_active(o) implies (#[trigger] self.has_leaf(o))
                        && self.pending_of(o) is None && self.loose_bv(o) == pre.post_loose(o) by {
                    if o != id {
                        assert(o < i ==> mid.has_leaf(o) && mid.pending_of(o) is None
                            && mid.loose_bv(o) == pre.post_loose(o));
                        assert(mid.proxies@[o as int] == self.proxies@[o as int]);
                    }
                }
                assert forall|o: u32|
                    #[trigger] self.tree.lmap().dom().contains(o) <==> (self.is_active(o)
                        && self.has_leaf(o)) by {
                    assert(mid.tree.lmap().dom().contains(o) <==> (mid.is_active(o)
                        && mid.has_leaf(o)));
                    if o != id && (o as int) < self.proxies@.len() {
                        assert(mid.proxies@[o as int] == self.proxies@[o as int]);
                    }
                }
                assert forall|o: u32|
                    self.is_active(o) && self.has_leaf(o) implies #[trigger] self.tree.lmap()[o]
                    == self.loose_bv(o) by {
                    assert(mid.is_active(o) == pre.is_active(o));
                    if o != id {
                        assert(mid.proxies@[o as int] == self.proxies@[o as int]);
                        if mid.is_active(o) && mid.has_leaf(o) {
                            assert(mid.tree.lmap()[o] == mid.loose_bv(o));
                        }
                        assert(mid.tree.lmap().dom().contains(o) <==> (mid.is_active(o)
                            && mid.has_leaf(o)));
                    }
                }
                assert forall|o: u32|
                    self.is_active(o) && self.has_leaf(o) implies aabb_wf(
                    #[trigger] self.loose_bv(o),
                ) && aabb_bounded(self.loose_bv(o), BV_BOUND as int) by {
                    if o != id {
                        assert(mid.proxies@[o as int] == self.proxies@[o as int]);
                        if mid.is_active(o) && mid.has_leaf(o) {
                            assert(aabb_wf(mid.loose_bv(o)) && aabb_bounded(
                                mid.loose_bv(o),
                                BV_BOUND as int,
                            ));
                        }
                    }
                }
                assert forall|o: u32|
                    self.is_active(o) && (#[trigger] self.pending_of(o)) is Some implies aabb_wf(
                    self.pending_of(o)->Some_0,
                ) && aabb_bounded(self.pending_of(o)->Some_0, 3 * MAX_COORD as int) by {
                    if o != id {
                        assert(mid.proxies@[o as int] == self.proxies@[o as int]);
                        if mid.is_active(o) && mid.pending_of(o) is Some {
                            assert(aabb_wf(mid.pending_of(o)->Some_0) && aabb_bounded(
                                mid.pending_of(o)->Some_0,
                                3 * MAX_COORD as int,
                            ));
                        }
                    }
                }
                assert forall|o: u32|
                    self.is_active(o) && !(#[trigger] self.has_leaf(o)) implies self.pending_of(
                    o,
                ) is Some by {
                    if o != id {
                        assert(mid.proxies@[o as int] == self.proxies@[o as int]);
                        if mid.is_active(o) && !mid.has_leaf(o) {
                            assert(mid.pending_of(o) is Some);
                        }
                    }
                }
            }
            i += 1;
        }
        proof {
            assert forall|o: u32| pre.is_active(o) implies (#[trigger] self.data_of(o))
                == pre.data_of(o) && self.pending_of(o) is None && self.loose_bv(o)
                == pre.post_loose(o) by {
                assert(o < n);
                assert(self.has_leaf(o));
            }
            assert forall|o: u32| self.is_active(o) implies #[trigger] self.has_leaf(o) by {
                assert(pre.is_active(o));
                assert(o < n);
            }
            assert forall|o: u32|
                self.is_active(o) implies #[trigger] self.tree.lmap()[o] == self.loose_bv(o) by {
                assert(self.has_leaf(o));
            }
            assert forall|o: u32|
                self.is_active(o) implies aabb_wf(#[trigger] self.loose_bv(o)) && aabb_bounded(
                self.loose_bv(o),
                BV_BOUND as int,
            ) by {
                assert(self.has_leaf(o));
            }
            assert forall|o: u32| #[trigger] moved@.contains(o) <==> pre.will_move(o) by {
                if pre.will_move(o) {
                    assert(pre.is_active(o));
                    assert(o < n);
                }
            }
        }
        moved
    }

    /// Queries the tree around every moved proxy and gathers the ordered
    /// pairs the filter admits, each at most once.
    fn collect_new_pairs<F: BroadPhasePairFilter>(&self, filter: &F, moved: &Vec<u32>) -> (r: Vec<
        (u32, u32),
    >)
        requires
            self.flushed(),
            forall|k: int| 0 <= k < moved@.len() ==> self.is_active(#[trigger] moved@[k]),
        ensures
            r@.no_duplicates(),
            forall|p: (u32, u32)|
                #[trigger] r@.contains(p) <==> self.overlap_pair_ok(*filter, moved@, p.0, p.1),
    {
        let mut out: Vec<(u32, u32)> = Vec::new();
        let n_moved: usize = moved.len();
        let mut j: usize = 0;
        while j < n_moved
            invariant
                self.flushed(),
                forall|k: int| 0 <= k < moved@.len() ==> self.is_active(#[trigger] moved@[k]),
                n_moved == moved@.len(),
                0 <= j <= n_moved,
                out@.no_duplicates(),
                forall|p: (u32, u32)|
                    #[trigger] out@.contains(p) ==> self.overlap_pair_ok(*filter, moved@, p.0, p.1),
                forall|a: u32, b: u32|
                    #[trigger] self.overlap_pair_ok(*filter, moved@, a, b) && (moved@.take(
                        j as int,
                    ).contains(a) || moved@.take(j as int).contains(b)) ==> out@.contains((a, b)),
            decreases n_moved - j,
        {
            let m: u32 = moved[j];
            let mbv: Aabb = match &self.proxies[m as usize] {
                Some(p) => p.bv,
                None => unreached(),
            };
            let cands: Vec<u32> = self.tree.visit_overlapping(&mbv);
            let n_cands: usize = cands.len();
            let mut c: usize = 0;
            while c < n_cands
                invariant
                    self.flushed(),
                    forall|k: int| 0 <= k < moved@.len() ==> self.is_active(#[trigger] moved@[k]),
                    n_moved == moved@.len(),
                    0 <= j < n_moved,
                    m == moved@[j as int],
                    self.is_active(m),
                    mbv == self.loose_bv(m),
                    n_cands == cands@.len(),
                    0 <= c <= n_cands,
                    forall|o: u32|
                        #[trigger] cands@.contains(o) <==> (self.is_active(o) && self.has_leaf(o)
                            && aabb_overlaps(self.loose_bv(o), mbv)),
                    out@.no_duplicates(),
                    forall|p: (u32, u32)|
                        #[trigger] out@.contains(p) ==> self.overlap_pair_ok(
                            *filter,
                            moved@,
                            p.0,
                            p.1,
                        ),
                    forall|a: u32, b: u32|
                        #[trigger] self.overlap_pair_ok(*filter, moved@, a, b) && (moved@.take(
                            j as int,
                        ).contains(a) || moved@.take(j as int).contains(b)) ==> out@.contains(
                            (a, b),
                        ),
                    forall|o: u32|
                        #![trigger cands@.take(c as int).contains(o)]
                        cands@.take(c as int).contains(o) && m < o && self.overlap_pair_ok(
                            *filter,
                            moved@,
                            m,
                            o,
                        ) ==> out@.contains((m, o)),
                    forall|o: u32|
                        #![trigger cands@.take(c as int).contains(o)]
                        cands@.take(c as int).contains(o) && o < m && self.overlap_pair_ok(
                            *filter,
                            moved@,
                            o,
                            m,
                        ) ==> out@.contains((o, m)),
                decreases n_cands - c,
            {
                let o: u32 = cands[c];
                let ghost out_before = out@;
                proof {
                    assert(cands@.contains(o));
                    assert(moved@.contains(m));
                }
                if o != m {
                    let a: u32 = if m < o {
                        m
                    } else {
                        o
                    };
                    let b: u32 = if m < o {
                        o
                    } else {
                        m
                    };
                    if !contains_pair(&out, a, b) {
                        let da = self.proxy_data(a);
                        let db = self.proxy_data(b);
                        if filter.is_pair_valid(da, db) {
                            out.push((a, b));
                            proof {
                                assert(self.overlap_pair_ok(*filter, moved@, a, b));
                                assert(out@ == out_before.push((a, b)));
                                assert(out@.last() == (a, b));
                                assert(out@.contains((a, b)));
                                assert(out@.no_duplicates()) by {
                                    assert forall|x: int, y: int|
                                        0 <= x < out@.len() && 0 <= y < out@.len() && x
                                        != y implies out@[x] != out@[y] by {
                                        let last = out@.len() - 1;
                                        if x < last && y < last {
                                            assert(out_before[x] == out@[x]);
                                            assert(out_before[y] == out@[y]);
                                        } else {
                                            let w = if x < last { x } else { y };
                                            assert(out_before[w] == out@[w]);
                                            assert(out_before.contains(out@[w]));
                                        }
                                    }
                                }
                            }
                        }
                    }
                }
                proof {
                    assert forall|p2: (u32, u32)| out_before.contains(p2) implies out@.contains(
                        p2,
                    ) by {
                        let k2 = choose|k2: int|
                            0 <= k2 < out_before.len() && (#[trigger] out_before[k2]) == p2;
                        assert(out@[k2] == p2);
                    }
                    assert forall|p2: (u32, u32)| #[trigger] out@.contains(p2) implies
                        self.overlap_pair_ok(*filter, moved@, p2.0, p2.1) by {
                        let k2 = choose|k2: int|
                            0 <= k2 < out@.len() && (#[trigger] out@[k2]) == p2;
                        if k2 < out_before.len() {
                            assert(out_before[k2] == p2);
                            assert(out_before.contains(p2));
                        } else {
                            assert(out@.last() == p2);
                        }
                    }
                    let ghost taken = cands@.take(c as int + 1);
                    assert forall|o2: u32|
                        taken.contains(o2) && m < o2 && self.overlap_pair_ok(
                            *filter,
                            moved@,
                            m,
                            o2,
                        ) implies out@.contains((m, o2)) by {
                        if o2 != o {
                            assert(cands@.take(c as int).contains(o2)) by {
                                let k2 = choose|k2: int|
                                    0 <= k2 < taken.len() && (#[trigger] taken[k2]) == o2;
                                assert(cands@.take(c as int)[k2] == o2);
                            }
                            assert(out_before.contains((m, o2)));
                        }
                    }
                    assert forall|o2: u32|
                        taken.contains(o2) && o2 < m && self.overlap_pair_ok(
                            *filter,
                            moved@,
                            o2,
                            m,
                        ) implies out@.contains((o2, m)) by {
                        if o2 != o {
                            assert(cands@.take(c as int).contains(o2)) by {
                                let k2 = choose|k2: int|
                                    0 <= k2 < taken.len() && (#[trigger] taken[k2]) == o2;
                                assert(cands@.take(c as int)[k2] == o2);
                            }
                            assert(out_before.contains((o2, m)));
                        }
                    }
                }
                c += 1;
            }
            proof {
                assert forall|a: u32, b: u32|
                    #[trigger] self.overlap_pair_ok(*filter, moved@, a, b) && (moved@.take(
                        j as int + 1,
                    ).contains(a) || moved@.take(j as int + 1).contains(b)) implies out@.contains(
                    (a, b),
                ) by {
                    let within_j = |x: u32| moved@.take(j as int).contains(x);
                    if !(within_j(a) || within_j(b)) {
                        let other = if a == m {
                            b
                        } else {
                            a
                        };
                        assert(a == m || b == m) by {
                            if moved@.take(j as int + 1).contains(a) {
                                let k2 = choose|k2: int|
                                    0 <= k2 <= j && (#[trigger] moved@.take(j as int + 1)[k2]) == a;
                                if k2 < j {
                                    assert(moved@.take(j as int)[k2] == a);
                                }
                            }
                            if moved@.take(j as int + 1).contains(b) {
                                let k2 = choose|k2: int|
                                    0 <= k2 <= j && (#[trigger] moved@.take(j as int + 1)[k2]) == b;
                                if k2 < j {
                                    assert(moved@.take(j as int)[k2] == b);
                                }
                            }
                        }
                        assert(cands@.contains(other)) by {
                            assert(aabb_overlaps(self.loose_bv(a), self.loose_bv(b)));
                        }
                        assert(cands@.take(n_cands as int) =~= cands@);
                        assert(cands@.take(n_cands as int).contains(other));
                    }
                }
            }
            j += 1;
        }
        proof {
            assert forall|p: (u32, u32)|
                self.overlap_pair_ok(*filter, moved@, p.0, p.1) implies #[trigger] out@.contains(
                p,
            ) by {
                assert(moved@.take(n_moved as int) =~= moved@);
            }
        }
        out
    }

    /// The pairs of `a` absent from `b`, in the order of `a`.
    fn pair_diff(a: &Vec<(u32, u32)>, b: &Vec<(u32, u32)>) -> (r: Vec<(u32, u32)>)
        requires
            a@.no_duplicates(),
        ensures
            r@ == ordered_diff(a@, b@),
            r@.no_duplicates(),
            forall|p: (u32, u32)|
                #[trigger] r@.contains(p) <==> (a@.contains(p) && !b@.contains(p)),
    {
        let mut out: Vec<(u32, u32)> = Vec::new();
        let n: usize = a.len();
        let mut i: usize = 0;
        while i < n
            invariant
                a@.no_duplicates(),
                n == a@.len(),
                0 <= i <= n,
                out@ == ordered_diff(a@.take(i as int), b@),
                out@.no_duplicates(),
                forall|p: (u32, u32)|
                    #[trigger] out@.contains(p) <==> (a@.take(i as int).contains(p)
                        && !b@.contains(p)),
            decreases n - i,
        {
            let p = a[i];
            let ghost out_before = out@;
            let absent: bool = !contains_pair(b, p.0, p.1);
            if absent {
                proof {
                    assert(!out@.contains(p)) by {
                        if a@.take(i as int).contains(p) {
                            let j = choose|j: int|
                                0 <= j < i && (#[trigger] a@.take(i as int)[j]) == p;
                            assert(a@[j] == a@[i as int]);
                        }
                    }
                }
                out.push(p);
            }
            proof {
                let taken = a@.take(i as int + 1);
                assert(taken.drop_last() =~= a@.take(i as int));
                assert(taken.last() == a@[i as int]);
                assert forall|p2: (u32, u32)| #[trigger] out@.contains(p2) implies (taken.contains(
                    p2,
                ) && !b@.contains(p2)) by {
                    let j = choose|j: int|
                        0 <= j < out@.len() && (#[trigger] out@[j]) == p2;
                    if j < out_before.len() {
                        assert(out_before[j] == p2);
                        assert(out_before.contains(p2));
                        assert(a@.take(i as int).contains(p2));
                        let j2 = choose|j2: int|
                            0 <= j2 < i && (#[trigger] a@.take(i as int)[j2]) == p2;
                        assert(taken[j2] == p2);
                    } else {
                        assert(p2 == p);
                        assert(taken[i as int] == p2);
                    }
                }
                assert forall|p2: (u32, u32)|
                    taken.contains(p2) && !b@.contains(p2) implies #[trigger] out@.contains(
                    p2,
                ) by {
                    let j = choose|j: int| 0 <= j <= i && (#[trigger] taken[j]) == p2;
                    if j < i {
                        assert(a@.take(i as int)[j] == p2);
                        assert(a@.take(i as int).contains(p2));
                        assert(out_before.contains(p2));
                        let j2 = choose|j2: int|
                            0 <= j2 < out_before.len() && (#[trigger] out_before[j2]) == p2;
                        assert(out@[j2] == p2);
                    } else {
                        assert(p2 == p);
                        assert(out@.last() == p2);
                    }
                }
            }
            i += 1;
        }
        proof {
            assert(a@.take(n as int) =~= a@);
        }
        out
    }


    /// After one update — the flush `pre -> mid`, then the overlap set of
    /// `post` rebuilt as the fresh pairs `fresh0` followed by the carried
    /// pairs — the invariant holds again, the overlap set is exactly the
    /// pairs `post_pair` admits, and `started` / `stopped` are its delta.
    proof fn lemma_install<F: BroadPhasePairFilter>(
        pre: DbvtBroadPhase,
        mid: DbvtBroadPhase,
        post: DbvtBroadPhase,
        f: F,
        moved: Seq<u32>,
        fresh0: Seq<(u32, u32)>,
        started: Seq<(u32, u32)>,
        stopped: Seq<(u32, u32)>,
    )
        requires
            pre.wf(),
            mid.flushed(),
            forall|o: u32| (#[trigger] mid.is_active(o)) == pre.is_active(o),
            forall|o: u32|
                pre.is_active(o) ==> (#[trigger] mid.data_of(o)) == pre.data_of(o)
                    && mid.pending_of(o) is None && mid.loose_bv(o) == pre.post_loose(o),
            forall|o: u32| #[trigger] moved.contains(o) <==> pre.will_move(o),
            mid.spec_current() == pre.spec_current(),
            mid.spec_margin() == pre.spec_margin(),
            mid.spec_num_slots() == pre.spec_num_slots(),
            mid.free == pre.free,
            forall|p: (u32, u32)|
                #[trigger] fresh0.contains(p) <==> mid.overlap_pair_ok(f, moved, p.0, p.1),
            fresh0.no_duplicates(),
            post.proxies == mid.proxies,
            post.tree == mid.tree,
            post.free == mid.free,
            post.margin == mid.margin,
            post.current@ == fresh0 + kept_pairs(pre.spec_current(), moved),
            post.current@.no_duplicates(),
            started.no_duplicates(),
            forall|p: (u32, u32)|
                #[trigger] started.contains(p) <==> (post.current@.contains(p)
                    && !pre.spec_current().contains(p)),
            stopped.no_duplicates(),
            forall|p: (u32, u32)|
                #[trigger] stopped.contains(p) <==> (pre.spec_current().contains(p)
                    && !post.current@.contains(p)),
        ensures
            post.wf(),
            forall|o: u32| (#[trigger] post.is_active(o)) == pre.is_active(o),
            forall|o: u32|
                pre.is_active(o) ==> (#[trigger] post.data_of(o)) == pre.data_of(o)
                    && post.pending_of(o) is None && post.has_leaf(o) && post.loose_bv(o)
                    == pre.post_loose(o),
            forall|p: (u32, u32)|
                #[trigger] post.pairs().contains(p) <==> pre.post_pair(f, p.0, p.1),
            forall|p: (u32, u32)|
                #[trigger] started.contains(p) <==> (post.pairs().contains(p)
                    && !pre.pairs().contains(p)),
            forall|p: (u32, u32)|
                #[trigger] stopped.contains(p) <==> (pre.pairs().contains(p)
                    && !post.pairs().contains(p)),
            post.spec_current().no_duplicates(),
            post.spec_margin() == pre.spec_margin(),
            post.spec_num_slots() == pre.spec_num_slots(),
    {
        broadcast use vstd::set::group_set_axioms;

        lemma_split_pairs_props(pre.spec_current(), moved);
        let kp = kept_pairs(pre.spec_current(), moved);
        assert forall|o: u32| (#[trigger] post.is_active(o)) == mid.is_active(o) && (
        post.is_active(o) ==> post.has_leaf(o) == mid.has_leaf(o) && post.loose_bv(o)
            == mid.loose_bv(o) && post.data_of(o) == mid.data_of(o) && post.pending_of(o)
            == mid.pending_of(o)) by {}
        assert forall|o: u32|
            pre.is_active(o) implies (#[trigger] post.data_of(o)) == pre.data_of(o)
                && post.pending_of(o) is None && post.has_leaf(o) && post.loose_bv(o)
                == pre.post_loose(o) by {
            assert(mid.is_active(o));
            assert(mid.has_leaf(o));
            assert(mid.data_of(o) == pre.data_of(o));
        }
        assert forall|j: int|
            0 <= j < post.current@.len() implies post.pair_ok(#[trigger] post.current@[j]) by {
            let p = post.current@[j];
            if j < fresh0.len() {
                assert(fresh0[j] == p);
                assert(fresh0.contains(p));
                assert(mid.overlap_pair_ok(f, moved, p.0, p.1));
                assert(mid.has_leaf(p.0) && mid.has_leaf(p.1));
            } else {
                assert(kp[j - fresh0.len()] == p);
                assert(kp.contains(p));
                assert(pre.spec_current().contains(p));
                let k2 = choose|k2: int|
                    0 <= k2 < pre.spec_current().len() && (#[trigger] pre.spec_current()[k2]) == p;
                assert(pre.current@[k2] == p);
                assert(pre.is_active(p.0) && pre.is_active(p.1));
                assert(!pair_touches(p, moved));
                assert(!pre.will_move(p.0) && !pre.will_move(p.1));
                assert(mid.data_of(p.0) == pre.data_of(p.0));
                assert(mid.data_of(p.1) == pre.data_of(p.1));
                assert(mid.loose_bv(p.0) == pre.loose_bv(p.0));
                assert(mid.loose_bv(p.1) == pre.loose_bv(p.1));
                assert(aabb_overlaps(pre.loose_bv(p.0), pre.loose_bv(p.1)));
            }
            assert(p.0 < p.1);
            assert(post.is_active(p.0));
            assert(post.has_leaf(p.0));
            assert(post.is_active(p.1));
            assert(post.has_leaf(p.1));
            assert(aabb_overlaps(post.loose_bv(p.0), post.loose_bv(p.1)));
        }
        assert forall|j: int|
            0 <= j < post.current@.len() implies (#[trigger] post.current@[j]).0
            < post.current@[j].1 && post.is_active(post.current@[j].0) && post.has_leaf(
            post.current@[j].0,
        ) && post.is_active(post.current@[j].1) && post.has_leaf(post.current@[j].1) by {
            assert(post.pair_ok(post.current@[j]));
        }
        assert forall|j: int|
            0 <= j < post.current@.len() implies aabb_overlaps(
            post.loose_bv((#[trigger] post.current@[j]).0),
            post.loose_bv(post.current@[j].1),
        ) by {
            assert(post.pair_ok(post.current@[j]));
        }
        assert forall|o: u32|
            #[trigger] post.tree.lmap().dom().contains(o) <==> (post.is_active(o)
                && post.has_leaf(o)) by {
            assert(mid.tree.lmap().dom().contains(o) <==> (mid.is_active(o) && mid.has_leaf(o)));
        }
        assert forall|o: u32|
            post.is_active(o) && post.has_leaf(o) implies #[trigger] post.tree.lmap()[o]
            == post.loose_bv(o) by {
            assert(mid.is_active(o));
            assert(mid.tree.lmap()[o] == mid.loose_bv(o));
        }
        assert forall|o: u32|
            post.is_active(o) && post.has_leaf(o) implies aabb_wf(#[trigger] post.loose_bv(o))
            && aabb_bounded(post.loose_bv(o), BV_BOUND as int) by {
            assert(mid.is_active(o));
            assert(aabb_wf(mid.loose_bv(o)) && aabb_bounded(mid.loose_bv(o), BV_BOUND as int));
        }
        assert forall|o: u32|
            post.is_active(o) && (#[trigger] post.pending_of(o)) is Some implies aabb_wf(
            post.pending_of(o)->Some_0,
        ) && aabb_bounded(post.pending_of(o)->Some_0, 3 * MAX_COORD as int) by {
            assert(pre.is_active(o));
            assert(post.pending_of(o) is None);
        }
        assert forall|o: u32|
            post.is_active(o) && !(#[trigger] post.has_leaf(o)) implies post.pending_of(
            o,
        ) is Some by {
            assert(pre.is_active(o));
            assert(post.has_leaf(o));
        }
        assert forall|k2: int|
            0 <= k2 < post.free@.len() implies (#[trigger] post.free@[k2]) < post.proxies@.len()
            && post.proxies@[post.free@[k2] as int] is None by {
            assert(pre.free@[k2] == post.free@[k2]);
            assert(!pre.is_active(pre.free@[k2]));
            assert(!post.is_active(post.free@[k2]));
        }
        assert(post.wf());
        // Membership of the rebuilt overlap set.
        assert forall|p: (u32, u32)|
            #[trigger] post.current@.contains(p) <==> pre.post_pair(f, p.0, p.1) by {
            if post.current@.contains(p) {
                let j = choose|j: int|
                    0 <= j < post.current@.len() && (#[trigger] post.current@[j]) == p;
                if j < fresh0.len() {
                    assert(fresh0[j] == p);
                    assert(fresh0.contains(p));
                    assert(mid.overlap_pair_ok(f, moved, p.0, p.1));
                    assert(pre.fresh_pair_ok(f, p.0, p.1)) by {
                        assert(mid.data_of(p.0) == pre.data_of(p.0));
                        assert(mid.data_of(p.1) == pre.data_of(p.1));
                        assert(mid.loose_bv(p.0) == pre.post_loose(p.0));
                        assert(mid.loose_bv(p.1) == pre.post_loose(p.1));
                    }
                } else {
                    assert(kp[j - fresh0.len()] == p);
                    assert(kp.contains(p));
                    assert(pre.spec_current().contains(p));
                    assert(!pair_touches(p, moved));
                    assert(pre.pairs().contains(p));
                    assert(pre.carried_pair(p.0, p.1));
                }
            }
            if pre.post_pair(f, p.0, p.1) {
                if pre.fresh_pair_ok(f, p.0, p.1) {
                    assert(mid.overlap_pair_ok(f, moved, p.0, p.1)) by {
                        assert(pre.is_active(p.0) && pre.is_active(p.1));
                        assert(mid.data_of(p.0) == pre.data_of(p.0));
                        assert(mid.data_of(p.1) == pre.data_of(p.1));
                        assert(mid.loose_bv(p.0) == pre.post_loose(p.0));
                        assert(mid.loose_bv(p.1) == pre.post_loose(p.1));
                    }
                    assert(fresh0.contains(p));
                    let j = choose|j: int| 0 <= j < fresh0.len() && (#[trigger] fresh0[j]) == p;
                    assert(post.current@[j] == p);
                } else {
                    assert(pre.carried_pair(p.0, p.1));
                    assert(pre.pairs().contains(p));
                    assert(pre.spec_current().contains(p));
                    assert(!pre.will_move(p.0) && !pre.will_move(p.1));
                    assert(!pair_touches(p, moved));
                    assert(kp.contains(p));
                    let j2 = choose|j2: int| 0 <= j2 < kp.len() && (#[trigger] kp[j2]) == p;
                    assert(post.current@[fresh0.len() + j2] == p);
                }
            }
        }
        assert forall|p: (u32, u32)|
            #[trigger] post.pairs().contains(p) <==> pre.post_pair(f, p.0, p.1) by {
            assert(post.pairs().contains(p) <==> post.current@.contains(p));
        }
        assert forall|p: (u32, u32)|
            #[trigger] started.contains(p) <==> (post.pairs().contains(p)
                && !pre.pairs().contains(p)) by {
            assert(post.pairs().contains(p) <==> post.current@.contains(p));
            assert(pre.pairs().contains(p) <==> pre.spec_current().contains(p));
        }
        assert forall|p: (u32, u32)|
            #[trigger] stopped.contains(p) <==> (pre.pairs().contains(p)
                && !post.pairs().contains(p)) by {
            assert(post.pairs().contains(p) <==> post.current@.contains(p));
            assert(pre.pairs().contains(p) <==> pre.spec_current().contains(p));
        }
    }

    /// The central operation: applies pending creations and moves, recomputes
    /// the overlap set — fresh pairs around every moved proxy, plus the pairs
    /// carried forward whose endpoints did not move — and returns the delta
    /// as `(started, stopped)`, each pair reported once.
    #[verifier::rlimit(100)]
    #[verifier::spinoff_prover]
    pub fn update<F: BroadPhasePairFilter>(&mut self, filter: &F) -> (r: (
        Vec<(u32, u32)>,
        Vec<(u32, u32)>,
    ))
        requires
            old(self).wf(),
        ensures
            final(self).wf(),
            forall|o: u32| (#[trigger] final(self).is_active(o)) == old(self).is_active(o),
            forall|o: u32|
                old(self).is_active(o) ==> (#[trigger] final(self).data_of(o)) == old(self).data_of(o) && final(self).pending_of(o) is None && final(self).has_leaf(o)
                    && final(self).loose_bv(o) == old(self).post_loose(o),
            forall|p: (u32, u32)|
                #[trigger] final(self).pairs().contains(p) <==> old(self).post_pair(
                    *filter,
                    p.0,
                    p.1,
                ),
            final(self).spec_current().no_duplicates(),
            r.0@ == ordered_diff(final(self).spec_current(), old(self).spec_current()),
            r.1@ == ordered_diff(old(self).spec_current(), final(self).spec_current()),
            r.0@.no_duplicates(),
            r.1@.no_duplicates(),
            forall|p: (u32, u32)|
                #[trigger] r.0@.contains(p) <==> (final(self).pairs().contains(p) && !old(self).pairs().contains(p)),
            forall|p: (u32, u32)|
                #[trigger] r.1@.contains(p) <==> (old(self).pairs().contains(p) && !final(self).pairs().contains(p)),
            final(self).spec_margin() == old(self).spec_margin(),
            final(self).spec_num_slots() == old(self).spec_num_slots(),
    {
        let ghost pre = *self;
        let moved: Vec<u32> = self.flush_pending();
        let ghost flushed_state = *self;
        proof {
            assert forall|k: int|
                0 <= k < moved@.len() implies self.is_active(#[trigger] moved@[k]) by {
                assert(moved@.contains(moved@[k]));
                assert(pre.will_move(moved@[k]));
            }
        }
        let mut new_pairs: Vec<(u32, u32)> = self.collect_new_pairs(filter, &moved);
        let ghost fresh0 = new_pairs@;
        // Carry forward the pairs whose endpoints did not move.
        let n_cur: usize = self.current.len();
        let mut k: usize = 0;
        while k < n_cur
            invariant
                pre.wf(),
                *self == flushed_state,
                self.flushed(),
                n_cur == self.current@.len(),
                0 <= k <= n_cur,
                self.current@.no_duplicates(),
                forall|o: u32| #[trigger] moved@.contains(o) <==> pre.will_move(o),
                forall|p: (u32, u32)|
                    #[trigger] fresh0.contains(p) ==> self.overlap_pair_ok(
                        *filter,
                        moved@,
                        p.0,
                        p.1,
                    ),
                new_pairs@ == fresh0 + kept_pairs(self.current@.take(k as int), moved@),
                new_pairs@.no_duplicates(),
            decreases n_cur - k,
        {
            let p = self.current[k];
            proof {
                let taken = self.current@.take(k as int + 1);
                assert(taken.drop_last() =~= self.current@.take(k as int));
                assert(taken.last() == self.current@[k as int]);
                lemma_split_pairs_props(self.current@.take(k as int), moved@);
            }
            if !contains_id(&moved, p.0) && !contains_id(&moved, p.1) {
                proof {
                    assert(!new_pairs@.contains(p)) by {
                        if new_pairs@.contains(p) {
                            let j = choose|j: int|
                                0 <= j < new_pairs@.len() && (#[trigger] new_pairs@[j]) == p;
                            if j < fresh0.len() {
                                assert(fresh0[j] == p);
                                assert(fresh0.contains(p));
                            } else {
                                let kp = kept_pairs(self.current@.take(k as int), moved@);
                                assert(kp[j - fresh0.len()] == p);
                                assert(kp.contains(p));
                                assert(self.current@.take(k as int).contains(p));
                                let j2 = choose|j2: int|
                                    0 <= j2 < k && (#[trigger] self.current@.take(k as int)[j2])
                                        == p;
                                assert(self.current@[j2] == self.current@[k as int]);
                            }
                        }
                    }
                }
                new_pairs.push(p);
            }
            k += 1;
        }
        proof {
            assert(self.current@.take(n_cur as int) =~= self.current@);
            lemma_split_pairs_props(self.current@, moved@);
        }
        // The delta against the previous overlap set.
        let started: Vec<(u32, u32)> = Self::pair_diff(&new_pairs, &self.current);
        let stopped: Vec<(u32, u32)> = Self::pair_diff(&self.current, &new_pairs);
        let ghost before_install = *self;
        self.current = new_pairs;
        proof {
            assert(before_install == flushed_state);
            assert(before_install.current@.take(n_cur as int) =~= before_install.current@);
            assert(self.current@ == fresh0 + kept_pairs(pre.spec_current(), moved@));
            DbvtBroadPhase::lemma_install(
                pre,
                before_install,
                *self,
                *filter,
                moved@,
                fresh0,
                started@,
                stopped@,
            );
        }
        (started, stopped)
    }
}


/// Two finite disjoint sets unite into one of summed size.
proof fn lemma_disjoint_union_len<A>(s1: Set<A>, s2: Set<A>)
    requires
        s1.finite(),
        s2.finite(),
        s1.disjoint(s2),
    ensures
        s1.union(s2).finite(),
        s1.union(s2).len() == s1.len() + s2.len(),
    decreases s1.len(),
{
    if s1.is_empty() {
        assert(s1.union(s2) =~= s2);
    } else {
        let a = s1.choose();
        assert(s1.contains(a));
        assert(!s2.contains(a));
        assert(s1.union(s2).remove(a) =~= s1.remove(a).union(s2));
        lemma_disjoint_union_len::<A>(s1.remove(a), s2);
        assert(s1.union(s2) =~= s1.remove(a).union(s2).insert(a));
    }
}

/// Taking a subset away from a finite set shrinks it by the subset's size.
proof fn lemma_subset_difference_len<A>(s: Set<A>, t: Set<A>)
    requires
        s.finite(),
        t.finite(),
        t.subset_of(s),
    ensures
        s.difference(t).finite(),
        s.difference(t).len() == s.len() - t.len(),
    decreases t.len(),
{
    if t.is_empty() {
        assert(s.difference(t) =~= s);
    } else {
        let a = t.choose();
        assert(t.contains(a));
        assert(s.contains(a));
        assert(s.difference(t) =~= s.remove(a).difference(t.remove(a)));
        assert(t.remove(a).subset_of(s.remove(a)));
        lemma_subset_difference_len::<A>(s.remove(a), t.remove(a));
    }
}

/// One update's delta fully accounts for the overlap set: the new set is the
/// old one, minus the stopped pairs, plus the started pairs, and the
/// interference count moves by exactly their numbers.
pub proof fn lemma_delta_accounting(
    pre: DbvtBroadPhase,
    post: DbvtBroadPhase,
    started: Seq<(u32, u32)>,
    stopped: Seq<(u32, u32)>,
)
    requires
        pre.spec_current().no_duplicates(),
        post.spec_current().no_duplicates(),
        started.no_duplicates(),
        stopped.no_duplicates(),
        forall|p: (u32, u32)|
            #[trigger] started.contains(p) <==> (post.pairs().contains(p) && !pre.pairs().contains(
                p,
            )),
        forall|p: (u32, u32)|
            #[trigger] stopped.contains(p) <==> (pre.pairs().contains(p) && !post.pairs().contains(
                p,
            )),
    ensures
        post.pairs() =~= pre.pairs().difference(stopped.to_set()).union(started.to_set()),
        post.spec_current().len() == pre.spec_current().len() - stopped.len() + started.len(),
{
    broadcast use vstd::set::group_set_axioms;

    pre.spec_current().unique_seq_to_set();
    post.spec_current().unique_seq_to_set();
    started.unique_seq_to_set();
    stopped.unique_seq_to_set();
    assert(post.pairs() =~= pre.pairs().difference(stopped.to_set()).union(started.to_set()));
    lemma_subset_difference_len(pre.pairs(), stopped.to_set());
    lemma_disjoint_union_len(pre.pairs().difference(stopped.to_set()), started.to_set());
    assert(pre.pairs().difference(stopped.to_set()).union(started.to_set()).len() == pre.pairs().len()
        - stopped.len() + started.len());
}

/// An update in which no proxy was created or moved reports no delta and
/// keeps the overlap set: repeating the same deferred changes is absorbed.
pub proof fn lemma_quiescent_update<F: BroadPhasePairFilter>(
    pre: DbvtBroadPhase,
    post: DbvtBroadPhase,
    f: F,
    started: Seq<(u32, u32)>,
    stopped: Seq<(u32, u32)>,
)
    requires
        forall|id: u32| !pre.will_move(id),
        forall|p: (u32, u32)| #[trigger] post.pairs().contains(p) <==> pre.post_pair(f, p.0, p.1),
        forall|p: (u32, u32)|
            #[trigger] started.contains(p) <==> (post.pairs().contains(p) && !pre.pairs().contains(
                p,
            )),
        forall|p: (u32, u32)|
            #[trigger] stopped.contains(p) <==> (pre.pairs().contains(p) && !post.pairs().contains(
                p,
            )),
    ensures
        post.pairs() =~= pre.pairs(),
        started == Seq::<(u32, u32)>::empty(),
        stopped == Seq::<(u32, u32)>::empty(),
{
    assert forall|p: (u32, u32)| #[trigger] post.pairs().contains(p) <==> pre.pairs().contains(
        p,
    ) by {
        assert(!pre.will_move(p.0) && !pre.will_move(p.1));
        if pre.pairs().contains(p) {
            assert(pre.carried_pair(p.0, p.1));
        }
    }
    assert(started =~= Seq::<(u32, u32)>::empty()) by {
        if started.len() > 0 {
            assert(started.contains(started[0]));
        }
    }
    assert(stopped =~= Seq::<(u32, u32)>::empty()) by {
        if stopped.len() > 0 {
            assert(stopped.contains(stopped[0]));
        }
    }
}

} // verus!
