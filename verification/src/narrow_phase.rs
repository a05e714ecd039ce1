//! The narrow phase: per-pair algorithm instances created from broad-phase
//! reports, updated each tick, and the contact and proximity events their
//! state transitions emit.

use vstd::prelude::*;
use crate::math::{Vect, Isometry, bounded, MAX_COORD};
use crate::shape::{Shape, Ball, shape_wf};
use crate::events::{Proximity, ContactEvent, ProximityEvent, ContactEvents, ProximityEvents};
use crate::world::{CollisionObjectSlab, GeometricQueryType, object_wf};

verus! {

/// Exact squared distance between two points.
pub open spec fn spec_dist_sq(p1: Vect, p2: Vect) -> int {
    (p2.x - p1.x) * (p2.x - p1.x) + (p2.y - p1.y) * (p2.y - p1.y) + (p2.z - p1.z) * (p2.z - p1.z)
}

/// A contact between two balls, kept in exact form: the center difference,
/// its squared length and the radii; a caller derives normal and depth.
#[derive(Clone, Copy, PartialEq, Eq, Structural, Debug)]
pub struct BallBallContact {
    /// Difference of the two centers (second minus first).
    pub delta: Vect,
    /// Squared distance between the centers.
    pub dist_sq: i128,
    /// Radius of the first ball.
    pub radius1: i64,
    /// Radius of the second ball.
    pub radius2: i64,
}

/// The contact two balls have at the given positions, within `prediction`:
/// present exactly when the centers are at most `r1 + r2 + prediction` apart.
pub open spec fn spec_ball_ball_contact(
    c1: Vect,
    r1: i64,
    c2: Vect,
    r2: i64,
    prediction: i64,
) -> Option<BallBallContact> {
    if spec_dist_sq(c1, c2) <= (r1 + r2 + prediction) * (r1 + r2 + prediction) {
        Some(
            BallBallContact {
                delta: Vect {
                    x: (c2.x - c1.x) as i64,
                    y: (c2.y - c1.y) as i64,
                    z: (c2.z - c1.z) as i64,
                },
                dist_sq: spec_dist_sq(c1, c2) as i128,
                radius1: r1,
                radius2: r2,
            },
        )
    } else {
        None
    }
}

/// The proximity status of two balls at the given positions and margin.
pub open spec fn spec_ball_ball_proximity(
    c1: Vect,
    r1: i64,
    c2: Vect,
    r2: i64,
    margin: i64,
) -> Proximity {
    if spec_dist_sq(c1, c2) <= (r1 + r2) * (r1 + r2) {
        Proximity::Intersecting
    } else if spec_dist_sq(c1, c2) <= (r1 + r2 + margin) * (r1 + r2 + margin) {
        Proximity::WithinMargin
    } else {
        Proximity::Disjoint
    }
}

/// Computes the exact squared distance of two in-range points.
fn dist_sq(p1: &Vect, p2: &Vect) -> (r: i128)
    requires
        bounded(*p1, MAX_COORD as int),
        bounded(*p2, MAX_COORD as int),
    ensures
        r == spec_dist_sq(*p1, *p2),
        0 <= r <= 12 * (MAX_COORD as int) * (MAX_COORD as int),
{
    let dx: i64 = p2.x - p1.x;
    let dy: i64 = p2.y - p1.y;
    let dz: i64 = p2.z - p1.z;
    proof {
        crate::math::lemma_mul_bound(dx as int, dx as int, 2 * MAX_COORD as int, 2 * MAX_COORD as int);
        crate::math::lemma_mul_bound(dy as int, dy as int, 2 * MAX_COORD as int, 2 * MAX_COORD as int);
        crate::math::lemma_mul_bound(dz as int, dz as int, 2 * MAX_COORD as int, 2 * MAX_COORD as int);
        assert((dx as int) * (dx as int) >= 0) by (nonlinear_arith);
        assert((dy as int) * (dy as int) >= 0) by (nonlinear_arith);
        assert((dz as int) * (dz as int) >= 0) by (nonlinear_arith);
    }
    (dx as i128) * (dx as i128) + (dy as i128) * (dy as i128) + (dz as i128) * (dz as i128)
}

/// The closed-form contact algorithm for a pair of balls.
#[derive(Clone, Copy, PartialEq, Eq, Structural, Debug)]
pub struct BallBallContactGenerator {
    /// The contact found by the last update, if any.
    pub contact: Option<BallBallContact>,
}

/// A contact algorithm instance, tagged by the shape pair it serves.
#[derive(Clone, Copy, PartialEq, Eq, Structural, Debug)]
pub enum ContactAlgorithm {
    /// Closed-form ball against ball.
    BallBall(BallBallContactGenerator),
}

impl ContactAlgorithm {
    /// The number of contacts the last update found.
    pub open spec fn spec_num_contacts(self) -> nat {
        match self {
            ContactAlgorithm::BallBall(g) => if g.contact is Some {
                1
            } else {
                0
            },
        }
    }

    /// The state of the algorithm after an update against the given shapes,
    /// positions and prediction; a pair the algorithm does not serve leaves
    /// it unchanged.
    pub open spec fn spec_updated(
        self,
        p1: Isometry,
        s1: Shape,
        p2: Isometry,
        s2: Shape,
        prediction: i64,
    ) -> ContactAlgorithm {
        match (s1, s2) {
            (Shape::Ball(b1), Shape::Ball(b2)) => ContactAlgorithm::BallBall(
                BallBallContactGenerator {
                    contact: spec_ball_ball_contact(
                        p1.translation,
                        b1.radius,
                        p2.translation,
                        b2.radius,
                        prediction,
                    ),
                },
            ),
            _ => self,
        }
    }

    /// A fresh ball-against-ball instance, with no contact yet.
    pub fn new_ball_ball() -> (r: ContactAlgorithm)
        ensures
            r == ContactAlgorithm::BallBall(
                BallBallContactGenerator { contact: Option::<BallBallContact>::None },
            ),
            r.spec_num_contacts() == 0,
    {
        ContactAlgorithm::BallBall(BallBallContactGenerator { contact: None })
    }

    /// The number of contacts the last update found.
    pub fn num_contacts(&self) -> (r: usize)
        ensures
            r == self.spec_num_contacts(),
    {
        match self {
            ContactAlgorithm::BallBall(g) => match g.contact {
                Some(_) => 1,
                None => 0,
            },
        }
    }

    /// The contact the last update found, if any.
    pub fn contact(&self) -> (r: Option<BallBallContact>)
        ensures
            r == match *self {
                ContactAlgorithm::BallBall(g) => g.contact,
            },
    {
        match self {
            ContactAlgorithm::BallBall(g) => g.contact,
        }
    }

    /// Recomputes the contact for the given positions and shapes within
    /// `prediction`; returns whether the algorithm serves the shape pair.
    pub fn update(
        &mut self,
        p1: &Isometry,
        s1: &Shape,
        p2: &Isometry,
        s2: &Shape,
        prediction: i64,
    ) -> (r: bool)
        requires
            bounded(p1.translation, MAX_COORD as int),
            bounded(p2.translation, MAX_COORD as int),
            shape_wf(*s1),
            shape_wf(*s2),
            0 <= prediction <= 2 * MAX_COORD,
        ensures
            *final(self) == old(self).spec_updated(*p1, *s1, *p2, *s2, prediction),
            r == (*s1 is Ball && *s2 is Ball),
    {
        match (s1, s2) {
            (Shape::Ball(b1), Shape::Ball(b2)) => {
                let d2: i128 = dist_sq(&p1.translation, &p2.translation);
                let reach: i64 = b1.radius + b2.radius + prediction;
                proof {
                    crate::math::lemma_mul_bound(
                        reach as int,
                        reach as int,
                        4 * MAX_COORD as int,
                        4 * MAX_COORD as int,
                    );
                }
                let contact: Option<BallBallContact> = if d2 <= (reach as i128) * (reach as i128) {
                    Some(
                        BallBallContact {
                            delta: Vect {
                                x: p2.translation.x - p1.translation.x,
                                y: p2.translation.y - p1.translation.y,
                                z: p2.translation.z - p1.translation.z,
                            },
                            dist_sq: d2,
                            radius1: b1.radius,
                            radius2: b2.radius,
                        },
                    )
                } else {
                    None
                };
                *self = ContactAlgorithm::BallBall(BallBallContactGenerator { contact });
                true
            },
            _ => false,
        }
    }
}

/// The closed-form proximity algorithm for a pair of balls.
#[derive(Clone, Copy, PartialEq, Eq, Structural, Debug)]
pub struct BallBallProximityDetector {
    /// The status the last update found; a fresh instance reports `Disjoint`.
    pub prox: Proximity,
}

/// A proximity algorithm instance, tagged by the shape pair it serves.
#[derive(Clone, Copy, PartialEq, Eq, Structural, Debug)]
pub enum ProximityAlgorithm {
    /// Closed-form ball against ball.
    BallBall(BallBallProximityDetector),
}

impl ProximityAlgorithm {
    /// The status the last update found.
    pub open spec fn spec_proximity(self) -> Proximity {
        match self {
            ProximityAlgorithm::BallBall(d) => d.prox,
        }
    }

    /// The state after an update against the given shapes, positions and
    /// margin; a pair the algorithm does not serve leaves it unchanged.
    pub open spec fn spec_updated(
        self,
        p1: Isometry,
        s1: Shape,
        p2: Isometry,
        s2: Shape,
        margin: i64,
    ) -> ProximityAlgorithm {
        match (s1, s2) {
            (Shape::Ball(b1), Shape::Ball(b2)) => ProximityAlgorithm::BallBall(
                BallBallProximityDetector {
                    prox: spec_ball_ball_proximity(
                        p1.translation,
                        b1.radius,
                        p2.translation,
                        b2.radius,
                        margin,
                    ),
                },
            ),
            _ => self,
        }
    }

    /// A fresh ball-against-ball instance, reporting `Disjoint`.
    pub fn new_ball_ball() -> (r: ProximityAlgorithm)
        ensures
            r == ProximityAlgorithm::BallBall(
                BallBallProximityDetector { prox: Proximity::Disjoint },
            ),
            r.spec_proximity() == Proximity::Disjoint,
    {
        ProximityAlgorithm::BallBall(BallBallProximityDetector { prox: Proximity::Disjoint })
    }

    /// The status the last update found.
    pub fn proximity(&self) -> (r: Proximity)
        ensures
            r == self.spec_proximity(),
    {
        match self {
            ProximityAlgorithm::BallBall(d) => d.prox,
        }
    }

    /// Recomputes the status for the given positions, shapes and margin;
    /// returns whether the algorithm serves the shape pair.
    pub fn update(
        &mut self,
        p1: &Isometry,
        s1: &Shape,
        p2: &Isometry,
        s2: &Shape,
        margin: i64,
    ) -> (r: bool)
        requires
            bounded(p1.translation, MAX_COORD as int),
            bounded(p2.translation, MAX_COORD as int),
            shape_wf(*s1),
            shape_wf(*s2),
            0 <= margin <= 2 * MAX_COORD,
        ensures
            *final(self) == old(self).spec_updated(*p1, *s1, *p2, *s2, margin),
            r == (*s1 is Ball && *s2 is Ball),
    {
        match (s1, s2) {
            (Shape::Ball(b1), Shape::Ball(b2)) => {
                let d2: i128 = dist_sq(&p1.translation, &p2.translation);
                let touch: i64 = b1.radius + b2.radius;
                let reach: i64 = touch + margin;
                proof {
                    assert(0 < touch <= 2 * MAX_COORD && 0 < reach <= 4 * MAX_COORD);
                    assert((touch as int) * (touch as int) <= 0x1_0000_0000_0000) by (nonlinear_arith)
                        requires
                            0 < touch <= 0x20_0000,
                    ;
                    assert((touch as int) * (touch as int) >= 0) by (nonlinear_arith);
                    assert((reach as int) * (reach as int) <= 0x10_0000_0000_0000) by (nonlinear_arith)
                        requires
                            0 < reach <= 0x40_0000,
                    ;
                    assert((reach as int) * (reach as int) >= 0) by (nonlinear_arith);
                }
                let prox: Proximity = if d2 <= (touch as i128) * (touch as i128) {
                    Proximity::Intersecting
                } else if d2 <= (reach as i128) * (reach as i128) {
                    Proximity::WithinMargin
                } else {
                    Proximity::Disjoint
                };
                *self = ProximityAlgorithm::BallBall(BallBallProximityDetector { prox });
                true
            },
            _ => false,
        }
    }
}

/// A registry mapping a pair of shapes to a fresh contact algorithm.
pub trait ContactDispatcher {
    /// The shape pairs this registry serves.
    spec fn dispatches(&self, s1: Shape, s2: Shape) -> bool;

    /// A fresh algorithm for the pair, when the registry serves it.
    fn get_contact_algorithm(&self, s1: &Shape, s2: &Shape) -> (r: Option<ContactAlgorithm>)
        ensures
            r is Some <==> self.dispatches(*s1, *s2),
            r is Some ==> r->Some_0.spec_num_contacts() == 0,
    ;
}

/// A registry mapping a pair of shapes to a fresh proximity algorithm.
pub trait ProximityDispatcher {
    /// The shape pairs this registry serves.
    spec fn dispatches(&self, s1: Shape, s2: Shape) -> bool;

    /// A fresh algorithm for the pair, when the registry serves it.
    fn get_proximity_algorithm(&self, s1: &Shape, s2: &Shape) -> (r: Option<ProximityAlgorithm>)
        ensures
            r is Some <==> self.dispatches(*s1, *s2),
            r is Some ==> r->Some_0.spec_proximity() == Proximity::Disjoint,
    ;
}

/// The built-in contact registry: closed-form ball against ball.
pub struct DefaultContactDispatcher;

impl ContactDispatcher for DefaultContactDispatcher {
    open spec fn dispatches(&self, s1: Shape, s2: Shape) -> bool {
        s1 is Ball && s2 is Ball
    }

    fn get_contact_algorithm(&self, s1: &Shape, s2: &Shape) -> (r: Option<ContactAlgorithm>) {
        match (s1, s2) {
            (Shape::Ball(_), Shape::Ball(_)) => Some(ContactAlgorithm::new_ball_ball()),
            _ => None,
        }
    }
}

/// The built-in proximity registry: closed-form ball against ball.
pub struct DefaultProximityDispatcher;

impl ProximityDispatcher for DefaultProximityDispatcher {
    open spec fn dispatches(&self, s1: Shape, s2: Shape) -> bool {
        s1 is Ball && s2 is Ball
    }

    fn get_proximity_algorithm(&self, s1: &Shape, s2: &Shape) -> (r: Option<ProximityAlgorithm>) {
        match (s1, s2) {
            (Shape::Ball(_), Shape::Ball(_)) => Some(ProximityAlgorithm::new_ball_ball()),
            _ => None,
        }
    }
}

/// Whether a key appears among the entries `s`.
pub open spec fn entries_have_key<A>(s: Seq<((u32, u32), A)>, k: (u32, u32)) -> bool {
    exists|j: int| 0 <= j < s.len() && (#[trigger] s[j]).0 == k
}

/// The entries of `s` whose key does not involve the handle `h`, in order.
pub open spec fn entries_without<A>(s: Seq<((u32, u32), A)>, h: u32) -> Seq<((u32, u32), A)>
    decreases s.len(),
{
    if s.len() == 0 {
        Seq::empty()
    } else {
        let rest = entries_without(s.drop_last(), h);
        if s.last().0.0 != h && s.last().0.1 != h {
            rest.push(s.last())
        } else {
            rest
        }
    }
}

/// The entries of `s` whose key involves the handle `h`, in order.
pub open spec fn entries_with<A>(s: Seq<((u32, u32), A)>, h: u32) -> Seq<((u32, u32), A)>
    decreases s.len(),
{
    if s.len() == 0 {
        Seq::empty()
    } else {
        let rest = entries_with(s.drop_last(), h);
        if s.last().0.0 == h || s.last().0.1 == h {
            rest.push(s.last())
        } else {
            rest
        }
    }
}

/// Splitting entries by an endpoint: each element of one part is an element
/// of `s` with, respectively without, the endpoint `h`; keys stay unique.
pub proof fn lemma_entries_split_props<A>(s: Seq<((u32, u32), A)>, h: u32)
    ensures
        forall|j: int|
            0 <= j < entries_without(s, h).len() ==> s.contains(
                #[trigger] entries_without(s, h)[j],
            ) && entries_without(s, h)[j].0.0 != h && entries_without(s, h)[j].0.1 != h,
        forall|j: int|
            0 <= j < entries_with(s, h).len() ==> s.contains(#[trigger] entries_with(s, h)[j]) && (
            entries_with(s, h)[j].0.0 == h || entries_with(s, h)[j].0.1 == h),
    decreases s.len(),
{
    if s.len() > 0 {
        let head = s.drop_last();
        lemma_entries_split_props(head, h);
        assert forall|e: ((u32, u32), A)| head.contains(e) implies s.contains(e) by {
            let j = choose|j: int| 0 <= j < head.len() && (#[trigger] head[j]) == e;
            assert(s[j] == e);
        }
        assert(s.contains(s.last()));
        if s.last().0.0 == h || s.last().0.1 == h {
            assert(entries_with(s, h) == entries_with(head, h).push(s.last()));
            assert(entries_without(s, h) == entries_without(head, h));
        } else {
            assert(entries_with(s, h) == entries_with(head, h));
            assert(entries_without(s, h) == entries_without(head, h).push(s.last()));
        }
        assert forall|j: int|
            0 <= j < entries_without(s, h).len() implies s.contains(
            #[trigger] entries_without(s, h)[j],
        ) && entries_without(s, h)[j].0.0 != h && entries_without(s, h)[j].0.1 != h by {
            if j < entries_without(head, h).len() {
                assert(entries_without(head, h)[j] == entries_without(s, h)[j]);
            } else {
                assert(entries_without(s, h)[j] == s.last());
            }
        }
        assert forall|j: int|
            0 <= j < entries_with(s, h).len() implies s.contains(#[trigger] entries_with(s, h)[j])
            && (entries_with(s, h)[j].0.0 == h || entries_with(s, h)[j].0.1 == h) by {
            if j < entries_with(head, h).len() {
                assert(entries_with(head, h)[j] == entries_with(s, h)[j]);
            } else {
                assert(entries_with(s, h)[j] == s.last());
            }
        }
    }
}

/// The unordered pair `(a, b)` in its stored form, smaller handle first.
pub open spec fn spec_sorted_pair(a: u32, b: u32) -> (u32, u32) {
    if a <= b {
        (a, b)
    } else {
        (b, a)
    }
}

/// Orders the unordered pair `(a, b)`, smaller handle first.
pub fn sorted_pair(a: u32, b: u32) -> (r: (u32, u32))
    ensures
        r == spec_sorted_pair(a, b),
{
    if a <= b {
        (a, b)
    } else {
        (b, a)
    }
}

/// Finds the entry whose key is `(a, b)`.
fn find_key<A>(entries: &Vec<((u32, u32), A)>, a: u32, b: u32) -> (r: Option<usize>)
    ensures
        match r {
            Some(i) => i < entries@.len() && entries@[i as int].0 == (a, b),
            None => !entries_have_key(entries@, (a, b)),
        },
{
    let n: usize = entries.len();
    let mut i: usize = 0;
    while i < n
        invariant
            n == entries@.len(),
            0 <= i <= n,
            forall|j: int| 0 <= j < i ==> (#[trigger] entries@[j]).0 != (a, b),
        decreases n - i,
    {
        let k = entries[i].0;
        if k.0 == a && k.1 == b {
            return Some(i);
        }
        i += 1;
    }
    None
}

/// Removing an entry keeps the keys ordered and unique.
pub proof fn lemma_entries_wf_remove<A>(s: Seq<((u32, u32), A)>, i: int)
    requires
        entries_wf(s),
        0 <= i < s.len(),
    ensures
        entries_wf(s.remove(i)),
{
    let t = s.remove(i);
    assert forall|j: int| 0 <= j < t.len() implies (#[trigger] t[j]).0.0 < t[j].0.1 by {
        if j < i {
            assert(t[j] == s[j]);
        } else {
            assert(t[j] == s[j + 1]);
        }
    }
    assert forall|x: int, y: int|
        0 <= x < t.len() && 0 <= y < t.len() && x != y implies (#[trigger] t[x]).0 != (
    #[trigger] t[y]).0 by {
        let sx = if x < i {
            x
        } else {
            x + 1
        };
        let sy = if y < i {
            y
        } else {
            y + 1
        };
        assert(t[x] == s[sx] && t[y] == s[sy]);
    }
}

/// Appending an entry under a fresh ordered key keeps the keys ordered and
/// unique.
pub proof fn lemma_entries_wf_push<A>(s: Seq<((u32, u32), A)>, e: ((u32, u32), A))
    requires
        entries_wf(s),
        !entries_have_key(s, e.0),
        e.0.0 < e.0.1,
    ensures
        entries_wf(s.push(e)),
{
    let t = s.push(e);
    assert forall|j: int| 0 <= j < t.len() implies (#[trigger] t[j]).0.0 < t[j].0.1 by {
        if j < s.len() {
            assert(t[j] == s[j]);
        }
    }
    assert forall|x: int, y: int|
        0 <= x < t.len() && 0 <= y < t.len() && x != y implies (#[trigger] t[x]).0 != (
    #[trigger] t[y]).0 by {
        let last = t.len() - 1;
        if x < last && y < last {
            assert(t[x] == s[x] && t[y] == s[y]);
        } else {
            let w = if x < last {
                x
            } else {
                y
            };
            assert(t[w] == s[w]);
        }
    }
}

/// One key names at most one entry.
pub open spec fn entries_wf<A>(s: Seq<((u32, u32), A)>) -> bool {
    &&& (forall|j: int| 0 <= j < s.len() ==> (#[trigger] s[j]).0.0 < s[j].0.1)
    &&& (forall|i: int, j: int|
        0 <= i < s.len() && 0 <= j < s.len() && i != j ==> (#[trigger] s[i]).0 != (
        #[trigger] s[j]).0)
}

/// Whether one of the two endpoints of `e`'s key was stamped at `timestamp`.
pub open spec fn entry_stamped<T, A>(
    e: ((u32, u32), A),
    objects: CollisionObjectSlab<T>,
    timestamp: u64,
) -> bool {
    objects.at(e.0.0).timestamp == timestamp || objects.at(e.0.1).timestamp == timestamp
}

/// The contact entry `e` after one narrow-phase tick: recomputed when one of
/// its endpoints was stamped at `timestamp`, untouched otherwise.
pub open spec fn contact_entry_updated<T>(
    e: ((u32, u32), ContactAlgorithm),
    objects: CollisionObjectSlab<T>,
    timestamp: u64,
) -> ContactAlgorithm {
    if entry_stamped(e, objects, timestamp) {
        e.1.spec_updated(
            objects.at(e.0.0).spec_position(),
            objects.at(e.0.0).spec_shape(),
            objects.at(e.0.1).spec_position(),
            objects.at(e.0.1).spec_shape(),
            (objects.at(e.0.0).spec_query_type()->Contacts_0 + objects.at(
                e.0.1,
            ).spec_query_type()->Contacts_0) as i64,
        )
    } else {
        e.1
    }
}

/// The contact event the entry `e` emits this tick, if its contact count
/// crosses zero.
pub open spec fn contact_entry_event<T>(
    e: ((u32, u32), ContactAlgorithm),
    objects: CollisionObjectSlab<T>,
    timestamp: u64,
) -> Option<ContactEvent> {
    if entry_stamped(e, objects, timestamp) {
        let n = contact_entry_updated(e, objects, timestamp);
        if e.1.spec_num_contacts() == 0 && n.spec_num_contacts() > 0 {
            Some(ContactEvent::Started(e.0.0, e.0.1))
        } else if e.1.spec_num_contacts() > 0 && n.spec_num_contacts() == 0 {
            Some(ContactEvent::Stopped(e.0.0, e.0.1))
        } else {
            None
        }
    } else {
        None
    }
}

/// The contact events one tick emits over the entries `s`, in entry order.
pub open spec fn contact_tick_events<T>(
    s: Seq<((u32, u32), ContactAlgorithm)>,
    objects: CollisionObjectSlab<T>,
    timestamp: u64,
) -> Seq<ContactEvent>
    decreases s.len(),
{
    if s.len() == 0 {
        Seq::empty()
    } else {
        let rest = contact_tick_events(s.drop_last(), objects, timestamp);
        match contact_entry_event(s.last(), objects, timestamp) {
            Some(e) => rest.push(e),
            None => rest,
        }
    }
}

/// The proximity entry `e` after one narrow-phase tick.
pub open spec fn proximity_entry_updated<T>(
    e: ((u32, u32), ProximityAlgorithm),
    objects: CollisionObjectSlab<T>,
    timestamp: u64,
) -> ProximityAlgorithm {
    if entry_stamped(e, objects, timestamp) {
        e.1.spec_updated(
            objects.at(e.0.0).spec_position(),
            objects.at(e.0.0).spec_shape(),
            objects.at(e.0.1).spec_position(),
            objects.at(e.0.1).spec_shape(),
            (objects.at(e.0.0).spec_query_type().spec_query_limit() + objects.at(
                e.0.1,
            ).spec_query_type().spec_query_limit()) as i64,
        )
    } else {
        e.1
    }
}

/// The proximity event the entry `e` emits this tick, if its status changed.
pub open spec fn proximity_entry_event<T>(
    e: ((u32, u32), ProximityAlgorithm),
    objects: CollisionObjectSlab<T>,
    timestamp: u64,
) -> Option<ProximityEvent> {
    if entry_stamped(e, objects, timestamp) {
        let n = proximity_entry_updated(e, objects, timestamp);
        if n.spec_proximity() != e.1.spec_proximity() {
            Some(
                ProximityEvent {
                    collider1: e.0.0,
                    collider2: e.0.1,
                    prev_status: e.1.spec_proximity(),
                    new_status: n.spec_proximity(),
                },
            )
        } else {
            None
        }
    } else {
        None
    }
}

/// The proximity events one tick emits over the entries `s`, in entry order.
pub open spec fn proximity_tick_events<T>(
    s: Seq<((u32, u32), ProximityAlgorithm)>,
    objects: CollisionObjectSlab<T>,
    timestamp: u64,
) -> Seq<ProximityEvent>
    decreases s.len(),
{
    if s.len() == 0 {
        Seq::empty()
    } else {
        let rest = proximity_tick_events(s.drop_last(), objects, timestamp);
        match proximity_entry_event(s.last(), objects, timestamp) {
            Some(e) => rest.push(e),
            None => rest,
        }
    }
}

/// The narrow phase: one contact algorithm per pair of contact objects, one
/// proximity algorithm per pair with a proximity endpoint, both created from
/// broad-phase reports and dropped on separation or removal.
pub struct DefaultNarrowPhase<CD, PD> {
    contact_dispatcher: CD,
    contact_generators: Vec<((u32, u32), ContactAlgorithm)>,
    proximity_dispatcher: PD,
    proximity_detectors: Vec<((u32, u32), ProximityAlgorithm)>,
}

impl<CD: ContactDispatcher, PD: ProximityDispatcher> DefaultNarrowPhase<CD, PD> {
    /// The contact entries, in insertion order.
    pub closed spec fn contact_entries(self) -> Seq<((u32, u32), ContactAlgorithm)> {
        self.contact_generators@
    }

    /// The proximity entries, in insertion order.
    pub closed spec fn proximity_entries(self) -> Seq<((u32, u32), ProximityAlgorithm)> {
        self.proximity_detectors@
    }

    /// The contact registry.
    pub closed spec fn spec_contact_dispatcher(self) -> CD {
        self.contact_dispatcher
    }

    /// The proximity registry.
    pub closed spec fn spec_proximity_dispatcher(self) -> PD {
        self.proximity_dispatcher
    }

    /// Keys are ordered pairs and unique within each map.
    pub open spec fn wf(self) -> bool {
        entries_wf(self.contact_entries()) && entries_wf(self.proximity_entries())
    }

    /// Builds a narrow phase around the two registries, with no entries yet.
    pub fn new(contact_dispatcher: CD, proximity_dispatcher: PD) -> (r: DefaultNarrowPhase<
        CD,
        PD,
    >)
        ensures
            r.wf(),
            r.contact_entries() == Seq::<((u32, u32), ContactAlgorithm)>::empty(),
            r.proximity_entries() == Seq::<((u32, u32), ProximityAlgorithm)>::empty(),
            r.spec_contact_dispatcher() == contact_dispatcher,
            r.spec_proximity_dispatcher() == proximity_dispatcher,
    {
        DefaultNarrowPhase {
            contact_dispatcher,
            contact_generators: Vec::new(),
            proximity_dispatcher,
            proximity_detectors: Vec::new(),
        }
    }

    /// The contact entries, for callers to walk.
    pub fn contact_pairs(&self) -> (r: &Vec<((u32, u32), ContactAlgorithm)>)
        ensures
            r@ == self.contact_entries(),
    {
        &self.contact_generators
    }

    /// The proximity entries, for callers to walk.
    pub fn proximity_pairs(&self) -> (r: &Vec<((u32, u32), ProximityAlgorithm)>)
        ensures
            r@ == self.proximity_entries(),
    {
        &self.proximity_detectors
    }

    /// What `handle_interaction` does, as a relation between the state and
    /// event queues before and after the call.
    pub open spec fn handle_interaction_post<T>(
        self,
        post: DefaultNarrowPhase<CD, PD>,
        ce0: Seq<ContactEvent>,
        ce1: Seq<ContactEvent>,
        pe0: Seq<ProximityEvent>,
        pe1: Seq<ProximityEvent>,
        objects: CollisionObjectSlab<T>,
        h1: u32,
        h2: u32,
        started: bool,
    ) -> bool {
        let k = spec_sorted_pair(h1, h2);
        let s1 = objects.at(k.0).spec_shape();
        let s2 = objects.at(k.1).spec_shape();
        if objects.at(k.0).spec_query_type() is Contacts && objects.at(
            k.1,
        ).spec_query_type() is Contacts {
            &&& post.proximity_entries() == self.proximity_entries()
            &&& pe1 == pe0
            &&& if started {
                &&& ce1 == ce0
                &&& if entries_have_key(self.contact_entries(), k)
                    || !self.spec_contact_dispatcher().dispatches(s1, s2) {
                    post.contact_entries() == self.contact_entries()
                } else {
                    &&& post.contact_entries().len() == self.contact_entries().len() + 1
                    &&& post.contact_entries().drop_last() == self.contact_entries()
                    &&& post.contact_entries().last().0 == k
                    &&& post.contact_entries().last().1.spec_num_contacts() == 0
                }
            } else {
                if !entries_have_key(self.contact_entries(), k) {
                    post.contact_entries() == self.contact_entries() && ce1 == ce0
                } else {
                    exists|i: int|
                        0 <= i < self.contact_entries().len() && (
                        #[trigger] self.contact_entries()[i]).0 == k && post.contact_entries()
                            == self.contact_entries().remove(i) && if self.contact_entries()[i].1.spec_num_contacts()
                            > 0 {
                            ce1 == ce0.push(ContactEvent::Stopped(k.0, k.1))
                        } else {
                            ce1 == ce0
                        }
                }
            }
        } else {
            &&& post.contact_entries() == self.contact_entries()
            &&& ce1 == ce0
            &&& if started {
                &&& pe1 == pe0
                &&& if entries_have_key(self.proximity_entries(), k)
                    || !self.spec_proximity_dispatcher().dispatches(s1, s2) {
                    post.proximity_entries() == self.proximity_entries()
                } else {
                    &&& post.proximity_entries().len() == self.proximity_entries().len() + 1
                    &&& post.proximity_entries().drop_last() == self.proximity_entries()
                    &&& post.proximity_entries().last().0 == k
                    &&& post.proximity_entries().last().1.spec_proximity() == Proximity::Disjoint
                }
            } else {
                if !entries_have_key(self.proximity_entries(), k) {
                    post.proximity_entries() == self.proximity_entries() && pe1 == pe0
                } else {
                    exists|i: int|
                        0 <= i < self.proximity_entries().len() && (
                        #[trigger] self.proximity_entries()[i]).0 == k && post.proximity_entries()
                            == self.proximity_entries().remove(i) && if self.proximity_entries()[i].1.spec_proximity()
                            != Proximity::Disjoint {
                            pe1 == pe0.push(
                                ProximityEvent {
                                    collider1: k.0,
                                    collider2: k.1,
                                    prev_status: self.proximity_entries()[i].1.spec_proximity(),
                                    new_status: Proximity::Disjoint,
                                },
                            )
                        } else {
                            pe1 == pe0
                        }
                }
            }
        }
    }

    /// Reacts to one broad-phase report for the pair `(handle1, handle2)`:
    /// on a started overlap an algorithm entry is created when the registry
    /// serves the shapes; on a stopped overlap the entry is dropped, with a
    /// `Stopped` or proximity-lost event when it held a non-empty state.
    pub fn handle_interaction<T>(
        &mut self,
        contact_events: &mut ContactEvents,
        proximity_events: &mut ProximityEvents,
        objects: &CollisionObjectSlab<T>,
        handle1: u32,
        handle2: u32,
        started: bool,
    )
        requires
            old(self).wf(),
            objects.has(handle1),
            objects.has(handle2),
            handle1 != handle2,
        ensures
            final(self).wf(),
            final(self).spec_contact_dispatcher() == old(self).spec_contact_dispatcher(),
            final(self).spec_proximity_dispatcher() == old(self).spec_proximity_dispatcher(),
            old(self).handle_interaction_post(
                *final(self),
                old(contact_events)@,
                final(contact_events)@,
                old(proximity_events)@,
                final(proximity_events)@,
                *objects,
                handle1,
                handle2,
                started,
            ),
    {
        let key = sorted_pair(handle1, handle2);
        let co1 = objects.get(key.0);
        let co2 = objects.get(key.1);
        match (co1.query_type(), co2.query_type()) {
            (GeometricQueryType::Contacts(_, _), GeometricQueryType::Contacts(_, _)) => {
                if started {
                    match find_key(&self.contact_generators, key.0, key.1) {
                        Some(_) => {},
                        None => {
                            match self.contact_dispatcher.get_contact_algorithm(
                                co1.shape(),
                                co2.shape(),
                            ) {
                                Some(detector) => {
                                    proof {
                                        lemma_entries_wf_push(
                                            self.contact_generators@,
                                            (key, detector),
                                        );
                                    }
                                    self.contact_generators.push((key, detector));
                                    proof {
                                        assert(self.contact_generators@.drop_last()
                                            =~= old(self).contact_generators@);
                                    }
                                },
                                None => {},
                            }
                        },
                    }
                } else {
                    match find_key(&self.contact_generators, key.0, key.1) {
                        Some(i) => {
                            let (_, detector) = self.contact_generators.remove(i);
                            proof {
                                lemma_entries_wf_remove(old(self).contact_generators@, i as int);
                            }
                            if detector.num_contacts() != 0 {
                                contact_events.push(ContactEvent::Stopped(key.0, key.1));
                            }
                        },
                        None => {},
                    }
                }
            },
            _ => {
                if started {
                    match find_key(&self.proximity_detectors, key.0, key.1) {
                        Some(_) => {},
                        None => {
                            match self.proximity_dispatcher.get_proximity_algorithm(
                                co1.shape(),
                                co2.shape(),
                            ) {
                                Some(detector) => {
                                    proof {
                                        lemma_entries_wf_push(
                                            self.proximity_detectors@,
                                            (key, detector),
                                        );
                                    }
                                    self.proximity_detectors.push((key, detector));
                                    proof {
                                        assert(self.proximity_detectors@.drop_last()
                                            =~= old(self).proximity_detectors@);
                                    }
                                },
                                None => {},
                            }
                        },
                    }
                } else {
                    match find_key(&self.proximity_detectors, key.0, key.1) {
                        Some(i) => {
                            let (_, detector) = self.proximity_detectors.remove(i);
                            proof {
                                lemma_entries_wf_remove(old(self).proximity_detectors@, i as int);
                            }
                            let prev_prox = detector.proximity();
                            if !matches!(prev_prox, Proximity::Disjoint) {
                                let event = ProximityEvent::new(
                                    key.0,
                                    key.1,
                                    prev_prox,
                                    Proximity::Disjoint,
                                );
                                proximity_events.push(event);
                            }
                        },
                        None => {},
                    }
                }
            },
        }
    }

    /// Erases the entries of the pair `(handle1, handle2)` silently and hands
    /// back whatever algorithms they held; the caller decides which events a
    /// removal publishes.
    pub fn handle_removal<T>(
        &mut self,
        _objects: &CollisionObjectSlab<T>,
        handle1: u32,
        handle2: u32,
    ) -> (r: (Option<ContactAlgorithm>, Option<ProximityAlgorithm>))
        requires
            old(self).wf(),
        ensures
            final(self).wf(),
            final(self).spec_contact_dispatcher() == old(self).spec_contact_dispatcher(),
            final(self).spec_proximity_dispatcher() == old(self).spec_proximity_dispatcher(),
            ({
                let k = spec_sorted_pair(handle1, handle2);
                &&& match r.0 {
                    Some(alg) => exists|i: int|
                        0 <= i < old(self).contact_entries().len() && (
                        #[trigger] old(self).contact_entries()[i]) == (k, alg) && final(self).contact_entries() == old(self).contact_entries().remove(i),
                    None => !entries_have_key(old(self).contact_entries(), k) && final(self).contact_entries() == old(self).contact_entries(),
                }
                &&& match r.1 {
                    Some(alg) => exists|i: int|
                        0 <= i < old(self).proximity_entries().len() && (
                        #[trigger] old(self).proximity_entries()[i]) == (k, alg) && final(self).proximity_entries() == old(self).proximity_entries().remove(i),
                    None => !entries_have_key(old(self).proximity_entries(), k) && final(self).proximity_entries() == old(self).proximity_entries(),
                }
            }),
    {
        let key = sorted_pair(handle1, handle2);
        let removed_contact: Option<ContactAlgorithm> = match find_key(
            &self.contact_generators,
            key.0,
            key.1,
        ) {
            Some(i) => {
                let (_, alg) = self.contact_generators.remove(i);
                proof {
                    lemma_entries_wf_remove(old(self).contact_generators@, i as int);
                }
                Some(alg)
            },
            None => None,
        };
        let removed_proximity: Option<ProximityAlgorithm> = match find_key(
            &self.proximity_detectors,
            key.0,
            key.1,
        ) {
            Some(i) => {
                let ghost mid = self.proximity_detectors@;
                let (_, alg) = self.proximity_detectors.remove(i);
                proof {
                    lemma_entries_wf_remove(mid, i as int);
                }
                Some(alg)
            },
            None => None,
        };
        (removed_contact, removed_proximity)
    }

    /// Drops every entry involving the handle `h` and hands the dropped
    /// entries back, in stored order; used when an object is removed or its
    /// query type changes.
    pub fn invalidate(&mut self, h: u32) -> (r: (
        Vec<((u32, u32), ContactAlgorithm)>,
        Vec<((u32, u32), ProximityAlgorithm)>,
    ))
        requires
            old(self).wf(),
        ensures
            final(self).wf(),
            final(self).spec_contact_dispatcher() == old(self).spec_contact_dispatcher(),
            final(self).spec_proximity_dispatcher() == old(self).spec_proximity_dispatcher(),
            final(self).contact_entries() == entries_without(old(self).contact_entries(), h),
            r.0@ == entries_with(old(self).contact_entries(), h),
            final(self).proximity_entries() == entries_without(old(self).proximity_entries(), h),
            r.1@ == entries_with(old(self).proximity_entries(), h),
    {
        let ghost pre_c = self.contact_generators@;
        let ghost pre_p = self.proximity_detectors@;
        let (ckept, cpurged) = Self::split_contact_entries(&self.contact_generators, h);
        let (pkept, ppurged) = Self::split_proximity_entries(&self.proximity_detectors, h);
        self.contact_generators = ckept;
        self.proximity_detectors = pkept;
        proof {
            Self::lemma_entries_without_wf(pre_c, h);
            Self::lemma_entries_without_wf_prox(pre_p, h);
        }
        (cpurged, ppurged)
    }

    /// Splits the contact entries around the handle `h`.
    fn split_contact_entries(entries: &Vec<((u32, u32), ContactAlgorithm)>, h: u32) -> (r: (
        Vec<((u32, u32), ContactAlgorithm)>,
        Vec<((u32, u32), ContactAlgorithm)>,
    ))
        ensures
            r.0@ == entries_without(entries@, h),
            r.1@ == entries_with(entries@, h),
    {
        let mut kept: Vec<((u32, u32), ContactAlgorithm)> = Vec::new();
        let mut purged: Vec<((u32, u32), ContactAlgorithm)> = Vec::new();
        let n: usize = entries.len();
        let mut i: usize = 0;
        while i < n
            invariant
                n == entries@.len(),
                0 <= i <= n,
                kept@ == entries_without(entries@.take(i as int), h),
                purged@ == entries_with(entries@.take(i as int), h),
            decreases n - i,
        {
            let e = entries[i];
            proof {
                let taken = entries@.take(i as int + 1);
                assert(taken.drop_last() =~= entries@.take(i as int));
                assert(taken.last() == entries@[i as int]);
            }
            if e.0.0 == h || e.0.1 == h {
                purged.push(e);
            } else {
                kept.push(e);
            }
            i += 1;
        }
        proof {
            assert(entries@.take(n as int) =~= entries@);
        }
        (kept, purged)
    }

    /// Splits the proximity entries around the handle `h`.
    fn split_proximity_entries(entries: &Vec<((u32, u32), ProximityAlgorithm)>, h: u32) -> (r: (
        Vec<((u32, u32), ProximityAlgorithm)>,
        Vec<((u32, u32), ProximityAlgorithm)>,
    ))
        ensures
            r.0@ == entries_without(entries@, h),
            r.1@ == entries_with(entries@, h),
    {
        let mut kept: Vec<((u32, u32), ProximityAlgorithm)> = Vec::new();
        let mut purged: Vec<((u32, u32), ProximityAlgorithm)> = Vec::new();
        let n: usize = entries.len();
        let mut i: usize = 0;
        while i < n
            invariant
                n == entries@.len(),
                0 <= i <= n,
                kept@ == entries_without(entries@.take(i as int), h),
                purged@ == entries_with(entries@.take(i as int), h),
            decreases n - i,
        {
            let e = entries[i];
            proof {
                let taken = entries@.take(i as int + 1);
                assert(taken.drop_last() =~= entries@.take(i as int));
                assert(taken.last() == entries@[i as int]);
            }
            if e.0.0 == h || e.0.1 == h {
                purged.push(e);
            } else {
                kept.push(e);
            }
            i += 1;
        }
        proof {
            assert(entries@.take(n as int) =~= entries@);
        }
        (kept, purged)
    }

    /// Filtering entries by endpoint keeps the keys ordered and unique.
    proof fn lemma_entries_without_wf(s: Seq<((u32, u32), ContactAlgorithm)>, h: u32)
        requires
            entries_wf(s),
        ensures
            entries_wf(entries_without(s, h)),
        decreases s.len(),
    {
        if s.len() > 0 {
            let head = s.drop_last();
            assert(entries_wf(head)) by {
                assert forall|j: int| 0 <= j < head.len() implies (#[trigger] head[j]).0.0
                    < head[j].0.1 by {
                    assert(head[j] == s[j]);
                }
                assert forall|x: int, y: int|
                    0 <= x < head.len() && 0 <= y < head.len() && x != y implies (
                #[trigger] head[x]).0 != (#[trigger] head[y]).0 by {
                    assert(head[x] == s[x] && head[y] == s[y]);
                }
            }
            Self::lemma_entries_without_wf(head, h);
            if s.last().0.0 != h && s.last().0.1 != h {
                lemma_entries_split_props::<ContactAlgorithm>(head, h);
                let t = entries_without(s, h);
                assert(t == entries_without(head, h).push(s.last()));
                assert forall|j: int| 0 <= j < t.len() implies (#[trigger] t[j]).0.0
                    < t[j].0.1 by {
                    if j < t.len() - 1 {
                        assert(t[j] == entries_without(head, h)[j]);
                    } else {
                        assert(t[j] == s.last());
                        assert(s[s.len() - 1] == s.last());
                    }
                }
                assert forall|x: int, y: int|
                    0 <= x < t.len() && 0 <= y < t.len() && x != y implies (#[trigger] t[x]).0 != (
                #[trigger] t[y]).0 by {
                    let last = t.len() - 1;
                    if x < last && y < last {
                        assert(t[x] == entries_without(head, h)[x]);
                        assert(t[y] == entries_without(head, h)[y]);
                    } else {
                        let w = if x < last {
                            x
                        } else {
                            y
                        };
                        assert(t[w] == entries_without(head, h)[w]);
                        assert(head.contains(t[w]));
                        let j2 = choose|j2: int|
                            0 <= j2 < head.len() && (#[trigger] head[j2]) == t[w];
                        assert(s[j2] == t[w]);
                        assert(s[j2].0 != s[s.len() - 1].0);
                    }
                }
            }
        }
    }

    /// Filtering entries by endpoint keeps the keys ordered and unique.
    proof fn lemma_entries_without_wf_prox(s: Seq<((u32, u32), ProximityAlgorithm)>, h: u32)
        requires
            entries_wf(s),
        ensures
            entries_wf(entries_without(s, h)),
        decreases s.len(),
    {
        if s.len() > 0 {
            let head = s.drop_last();
            assert(entries_wf(head)) by {
                assert forall|j: int| 0 <= j < head.len() implies (#[trigger] head[j]).0.0
                    < head[j].0.1 by {
                    assert(head[j] == s[j]);
                }
                assert forall|x: int, y: int|
                    0 <= x < head.len() && 0 <= y < head.len() && x != y implies (
                #[trigger] head[x]).0 != (#[trigger] head[y]).0 by {
                    assert(head[x] == s[x] && head[y] == s[y]);
                }
            }
            Self::lemma_entries_without_wf_prox(head, h);
            if s.last().0.0 != h && s.last().0.1 != h {
                lemma_entries_split_props::<ProximityAlgorithm>(head, h);
                let t = entries_without(s, h);
                assert(t == entries_without(head, h).push(s.last()));
                assert forall|j: int| 0 <= j < t.len() implies (#[trigger] t[j]).0.0
                    < t[j].0.1 by {
                    if j < t.len() - 1 {
                        assert(t[j] == entries_without(head, h)[j]);
                    } else {
                        assert(t[j] == s.last());
                        assert(s[s.len() - 1] == s.last());
                    }
                }
                assert forall|x: int, y: int|
                    0 <= x < t.len() && 0 <= y < t.len() && x != y implies (#[trigger] t[x]).0 != (
                #[trigger] t[y]).0 by {
                    let last = t.len() - 1;
                    if x < last && y < last {
                        assert(t[x] == entries_without(head, h)[x]);
                        assert(t[y] == entries_without(head, h)[y]);
                    } else {
                        let w = if x < last {
                            x
                        } else {
                            y
                        };
                        assert(t[w] == entries_without(head, h)[w]);
                        assert(head.contains(t[w]));
                        let j2 = choose|j2: int|
                            0 <= j2 < head.len() && (#[trigger] head[j2]) == t[w];
                        assert(s[j2] == t[w]);
                        assert(s[j2].0 != s[s.len() - 1].0);
                    }
                }
            }
        }
    }

    /// One narrow-phase tick: every entry with an endpoint stamped at
    /// `timestamp` recomputes its algorithm against the endpoints' current
    /// positions, and a contact event is emitted when the contact count
    /// crosses zero, a proximity event when the status changes.
    pub fn update<T>(
        &mut self,
        objects: &CollisionObjectSlab<T>,
        contact_events: &mut ContactEvents,
        proximity_events: &mut ProximityEvents,
        timestamp: u64,
    )
        requires
            old(self).wf(),
            forall|j: int|
                0 <= j < old(self).contact_entries().len() ==> objects.has(
                    (#[trigger] old(self).contact_entries()[j]).0.0,
                ) && objects.has(old(self).contact_entries()[j].0.1) && object_wf(
                    objects.at(old(self).contact_entries()[j].0.0),
                ) && object_wf(objects.at(old(self).contact_entries()[j].0.1)) && objects.at(
                    old(self).contact_entries()[j].0.0,
                ).spec_query_type() is Contacts && objects.at(
                    old(self).contact_entries()[j].0.1,
                ).spec_query_type() is Contacts,
            forall|j: int|
                0 <= j < old(self).proximity_entries().len() ==> objects.has(
                    (#[trigger] old(self).proximity_entries()[j]).0.0,
                ) && objects.has(old(self).proximity_entries()[j].0.1) && object_wf(
                    objects.at(old(self).proximity_entries()[j].0.0),
                ) && object_wf(objects.at(old(self).proximity_entries()[j].0.1)),
        ensures
            final(self).wf(),
            final(self).spec_contact_dispatcher() == old(self).spec_contact_dispatcher(),
            final(self).spec_proximity_dispatcher() == old(self).spec_proximity_dispatcher(),
            final(self).contact_entries().len() == old(self).contact_entries().len(),
            forall|j: int|
                0 <= j < old(self).contact_entries().len() ==> (
                #[trigger] final(self).contact_entries()[j]).0 == old(self).contact_entries()[j].0
                    && final(self).contact_entries()[j].1 == contact_entry_updated(
                    old(self).contact_entries()[j],
                    *objects,
                    timestamp,
                ),
            final(contact_events)@ == old(contact_events)@ + contact_tick_events(
                old(self).contact_entries(),
                *objects,
                timestamp,
            ),
            final(self).proximity_entries().len() == old(self).proximity_entries().len(),
            forall|j: int|
                0 <= j < old(self).proximity_entries().len() ==> (
                #[trigger] final(self).proximity_entries()[j]).0 == old(
                    self,
                ).proximity_entries()[j].0 && final(self).proximity_entries()[j].1
                    == proximity_entry_updated(
                    old(self).proximity_entries()[j],
                    *objects,
                    timestamp,
                ),
            final(proximity_events)@ == old(proximity_events)@ + proximity_tick_events(
                old(self).proximity_entries(),
                *objects,
                timestamp,
            ),
    {
        let ghost pre_c = self.contact_generators@;
        let ghost ce0 = contact_events@;
        let n_c: usize = self.contact_generators.len();
        let mut i: usize = 0;
        while i < n_c
            invariant
                n_c == pre_c.len(),
                0 <= i <= n_c,
                self.contact_generators@.len() == n_c,
                entries_wf(pre_c),
                self.proximity_detectors@ == old(self).proximity_detectors@,
                self.contact_dispatcher == old(self).contact_dispatcher,
                self.proximity_dispatcher == old(self).proximity_dispatcher,
                proximity_events@ == old(proximity_events)@,
                forall|j: int|
                    0 <= j < n_c ==> objects.has((#[trigger] pre_c[j]).0.0) && objects.has(
                        pre_c[j].0.1,
                    ) && object_wf(objects.at(pre_c[j].0.0)) && object_wf(objects.at(pre_c[j].0.1))
                        && objects.at(pre_c[j].0.0).spec_query_type() is Contacts && objects.at(
                        pre_c[j].0.1,
                    ).spec_query_type() is Contacts,
                forall|j: int|
                    0 <= j < i ==> (#[trigger] self.contact_generators@[j]).0 == pre_c[j].0
                        && self.contact_generators@[j].1 == contact_entry_updated(
                        pre_c[j],
                        *objects,
                        timestamp,
                    ),
                forall|j: int|
                    i <= j < n_c ==> #[trigger] self.contact_generators@[j] == pre_c[j],
                contact_events@ == ce0 + contact_tick_events(
                    pre_c.take(i as int),
                    *objects,
                    timestamp,
                ),
            decreases n_c - i,
        {
            let entry = self.contact_generators[i];
            let ghost pre_entry = pre_c[i as int];
            proof {
                assert(entry == pre_c[i as int]);
                let taken = pre_c.take(i as int + 1);
                assert(taken.drop_last() =~= pre_c.take(i as int));
                assert(taken.last() == pre_c[i as int]);
            }
            let co1 = objects.get(entry.0.0);
            let co2 = objects.get(entry.0.1);
            if co1.timestamp == timestamp || co2.timestamp == timestamp {
                let had_contacts: bool = entry.1.num_contacts() != 0;
                let prediction: i64 = match co1.query_type().contact_queries_to_prediction(
                    co2.query_type(),
                ) {
                    Some(p) => p,
                    None => unreached(),
                };
                let mut alg = entry.1;
                let _ = alg.update(co1.position(), co1.shape(), co2.position(), co2.shape(), prediction);
                self.contact_generators[i] = (entry.0, alg);
                if alg.num_contacts() == 0 {
                    if had_contacts {
                        contact_events.push(ContactEvent::Stopped(entry.0.0, entry.0.1));
                    }
                } else {
                    if !had_contacts {
                        contact_events.push(ContactEvent::Started(entry.0.0, entry.0.1));
                    }
                }
                proof {
                    assert(alg == contact_entry_updated(pre_entry, *objects, timestamp));
                }
            } else {
                proof {
                    assert(contact_tick_events(pre_c.take(i as int + 1), *objects, timestamp)
                        =~= contact_tick_events(pre_c.take(i as int), *objects, timestamp));
                }
            }
            i += 1;
        }
        proof {
            assert(pre_c.take(n_c as int) =~= pre_c);
            assert(entries_wf(self.contact_generators@)) by {
                assert forall|j: int|
                    0 <= j < self.contact_generators@.len() implies (
                #[trigger] self.contact_generators@[j]).0.0 < self.contact_generators@[j].0.1 by {
                    assert(self.contact_generators@[j].0 == pre_c[j].0);
                }
                assert forall|x: int, y: int|
                    0 <= x < self.contact_generators@.len() && 0 <= y
                        < self.contact_generators@.len() && x != y implies (
                #[trigger] self.contact_generators@[x]).0 != (
                #[trigger] self.contact_generators@[y]).0 by {
                    assert(self.contact_generators@[x].0 == pre_c[x].0);
                    assert(self.contact_generators@[y].0 == pre_c[y].0);
                }
            }
        }
        let ghost pre_p = self.proximity_detectors@;
        let ghost pe0 = proximity_events@;
        let n_p: usize = self.proximity_detectors.len();
        let mut i2: usize = 0;
        while i2 < n_p
            invariant
                n_p == pre_p.len(),
                0 <= i2 <= n_p,
                self.proximity_detectors@.len() == n_p,
                entries_wf(pre_p),
                entries_wf(self.contact_generators@),
                self.contact_generators@.len() == pre_c.len(),
                forall|j: int|
                    0 <= j < pre_c.len() ==> (#[trigger] self.contact_generators@[j]).0
                        == pre_c[j].0 && self.contact_generators@[j].1 == contact_entry_updated(
                        pre_c[j],
                        *objects,
                        timestamp,
                    ),
                contact_events@ == ce0 + contact_tick_events(pre_c, *objects, timestamp),
                self.contact_dispatcher == old(self).contact_dispatcher,
                self.proximity_dispatcher == old(self).proximity_dispatcher,
                forall|j: int|
                    0 <= j < n_p ==> objects.has((#[trigger] pre_p[j]).0.0) && objects.has(
                        pre_p[j].0.1,
                    ) && object_wf(objects.at(pre_p[j].0.0)) && object_wf(objects.at(pre_p[j].0.1)),
                forall|j: int|
                    0 <= j < i2 ==> (#[trigger] self.proximity_detectors@[j]).0 == pre_p[j].0
                        && self.proximity_detectors@[j].1 == proximity_entry_updated(
                        pre_p[j],
                        *objects,
                        timestamp,
                    ),
                forall|j: int|
                    i2 <= j < n_p ==> #[trigger] self.proximity_detectors@[j] == pre_p[j],
                proximity_events@ == pe0 + proximity_tick_events(
                    pre_p.take(i2 as int),
                    *objects,
                    timestamp,
                ),
            decreases n_p - i2,
        {
            let entry = self.proximity_detectors[i2];
            let ghost pre_entry = pre_p[i2 as int];
            proof {
                assert(entry == pre_p[i2 as int]);
                let taken = pre_p.take(i2 as int + 1);
                assert(taken.drop_last() =~= pre_p.take(i2 as int));
                assert(taken.last() == pre_p[i2 as int]);
            }
            let co1 = objects.get(entry.0.0);
            let co2 = objects.get(entry.0.1);
            if co1.timestamp == timestamp || co2.timestamp == timestamp {
                let prev_prox = entry.1.proximity();
                let margin: i64 = co1.query_type().query_limit() + co2.query_type().query_limit();
                let mut alg = entry.1;
                let _ = alg.update(co1.position(), co1.shape(), co2.position(), co2.shape(), margin);
                self.proximity_detectors[i2] = (entry.0, alg);
                let new_prox = alg.proximity();
                if !proximity_eq(new_prox, prev_prox) {
                    proximity_events.push(ProximityEvent::new(entry.0.0, entry.0.1, prev_prox, new_prox));
                }
                proof {
                    assert(alg == proximity_entry_updated(pre_entry, *objects, timestamp));
                }
            } else {
                proof {
                    assert(proximity_tick_events(pre_p.take(i2 as int + 1), *objects, timestamp)
                        =~= proximity_tick_events(pre_p.take(i2 as int), *objects, timestamp));
                }
            }
            i2 += 1;
        }
        proof {
            assert(pre_p.take(n_p as int) =~= pre_p);
            assert(entries_wf(self.proximity_detectors@)) by {
                assert forall|j: int|
                    0 <= j < self.proximity_detectors@.len() implies (
                #[trigger] self.proximity_detectors@[j]).0.0
                    < self.proximity_detectors@[j].0.1 by {
                    assert(self.proximity_detectors@[j].0 == pre_p[j].0);
                }
                assert forall|x: int, y: int|
                    0 <= x < self.proximity_detectors@.len() && 0 <= y
                        < self.proximity_detectors@.len() && x != y implies (
                #[trigger] self.proximity_detectors@[x]).0 != (
                #[trigger] self.proximity_detectors@[y]).0 by {
                    assert(self.proximity_detectors@[x].0 == pre_p[x].0);
                    assert(self.proximity_detectors@[y].0 == pre_p[y].0);
                }
            }
        }
    }
}

/// Compares two proximity statuses.
fn proximity_eq(a: Proximity, b: Proximity) -> (r: bool)
    ensures
        r == (a == b),
{
    match (a, b) {
        (Proximity::Intersecting, Proximity::Intersecting) => true,
        (Proximity::WithinMargin, Proximity::WithinMargin) => true,
        (Proximity::Disjoint, Proximity::Disjoint) => true,
        _ => false,
    }
}

} // verus!
