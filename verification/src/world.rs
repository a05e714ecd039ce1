//! Collision objects, interaction groups, query types, the object store and
//! the collision world that owns every stage of the pipeline.

use vstd::prelude::*;
use crate::math::{Vect, Isometry, bounded, MAX_COORD};
use crate::shape::{Shape, shape_wf, spec_shape_aabb};
use crate::bounding_volume::{Aabb, aabb_loosened, aabb_overlaps};
use crate::broad_phase::{DbvtBroadPhase, BroadPhasePairFilter};
use crate::narrow_phase::{
    DefaultNarrowPhase,
    DefaultContactDispatcher,
    DefaultProximityDispatcher,
    ContactAlgorithm,
    ProximityAlgorithm,
    entries_with,
    entries_without,
    lemma_entries_split_props,
};
use crate::events::{Proximity, ContactEvent, ProximityEvent, ContactEvents, ProximityEvents};

verus! {

/// A stable identifier of a collision object.
pub type CollisionObjectHandle = u32;

/// Groups regulating which pairs of objects may interact: a pair matches
/// when, in each direction, one's membership meets the other's whitelist and
/// misses its blacklist.
#[derive(Clone, Copy, PartialEq, Eq, Structural, Debug)]
pub struct CollisionGroups {
    pub membership: u32,
    pub whitelist: u32,
    pub blacklist: u32,
    /// Whether an object carrying these groups may interact with itself.
    /// The world never pairs an object with itself, so the flag only serves
    /// callers running queries of an object against its own shape.
    pub self_interaction: bool,
}

/// Whether `a` may interact with `b` under the group rules.
pub open spec fn spec_groups_interact(a: CollisionGroups, b: CollisionGroups) -> bool {
    &&& (a.membership & b.whitelist) != 0
    &&& (b.membership & a.whitelist) != 0
    &&& (a.membership & b.blacklist) == 0
    &&& (b.membership & a.blacklist) == 0
}

impl CollisionGroups {
    /// Builds the default groups: member of every group, every group
    /// whitelisted, nothing blacklisted.
    pub fn new() -> (r: CollisionGroups)
        ensures
            r.membership == 0xFFFF_FFFFu32,
            r.whitelist == 0xFFFF_FFFFu32,
            r.blacklist == 0u32,
            !r.self_interaction,
    {
        CollisionGroups {
            membership: 0xFFFF_FFFF,
            whitelist: 0xFFFF_FFFF,
            blacklist: 0,
            self_interaction: false,
        }
    }

    /// Allows or forbids interaction of an object with itself.
    pub fn enable_self_interaction(&mut self, enabled: bool)
        ensures
            *final(self) == (CollisionGroups { self_interaction: enabled, ..*old(self) }),
    {
        self.self_interaction = enabled;
    }

    /// Whether `self` and `other` may interact when they belong to the same
    /// object: the masks must pass and the object must allow it.
    pub fn can_interact_with_self(&self) -> (r: bool)
        ensures
            r == (self.self_interaction && spec_groups_interact(*self, *self)),
    {
        self.self_interaction && self.can_interact_with_groups(&CollisionGroups {
            membership: self.membership,
            whitelist: self.whitelist,
            blacklist: self.blacklist,
            self_interaction: self.self_interaction,
        })
    }

    /// Replaces the membership mask.
    pub fn set_membership(&mut self, membership: u32)
        ensures
            *final(self) == (CollisionGroups { membership, ..*old(self) }),
    {
        self.membership = membership;
    }

    /// Replaces the whitelist mask.
    pub fn set_whitelist(&mut self, whitelist: u32)
        ensures
            *final(self) == (CollisionGroups { whitelist, ..*old(self) }),
    {
        self.whitelist = whitelist;
    }

    /// Replaces the blacklist mask.
    pub fn set_blacklist(&mut self, blacklist: u32)
        ensures
            *final(self) == (CollisionGroups { blacklist, ..*old(self) }),
    {
        self.blacklist = blacklist;
    }

    /// Whether `self` and `other` pass each other's masks.
    pub fn can_interact_with_groups(&self, other: &CollisionGroups) -> (r: bool)
        ensures
            r == spec_groups_interact(*self, *other),
    {
        (self.membership & other.whitelist) != 0 && (other.membership & self.whitelist) != 0 && (
        self.membership & other.blacklist) == 0 && (other.membership & self.blacklist) == 0
    }
}

/// The kind of geometric query run for a pair: exact contact points within a
/// prediction distance, or the three-valued proximity relation at a margin.
#[derive(Clone, Copy, PartialEq, Eq, Structural, Debug)]
pub enum GeometricQueryType {
    /// Contact computation with a linear and an angular prediction.
    Contacts(i64, i64),
    /// Proximity classification at the given margin.
    Proximity(i64),
}

/// The query's parameters are non-negative and in range.
pub open spec fn query_type_wf(q: GeometricQueryType) -> bool {
    match q {
        GeometricQueryType::Contacts(p, a) => 0 <= p <= MAX_COORD && 0 <= a <= MAX_COORD,
        GeometricQueryType::Proximity(m) => 0 <= m <= MAX_COORD,
    }
}

impl GeometricQueryType {
    /// The combined contact prediction of two queries, when both ask for
    /// contacts.
    pub fn contact_queries_to_prediction(&self, other: &GeometricQueryType) -> (r: Option<i64>)
        requires
            query_type_wf(*self),
            query_type_wf(*other),
        ensures
            r == match (*self, *other) {
                (
                    GeometricQueryType::Contacts(a, _),
                    GeometricQueryType::Contacts(b, _),
                ) => Some((a + b) as i64),
                _ => Option::<i64>::None,
            },
    {
        match (self, other) {
            (GeometricQueryType::Contacts(a, _), GeometricQueryType::Contacts(b, _)) => Some(
                *a + *b,
            ),
            _ => None,
        }
    }

    /// The query's own distance limit: its prediction for contacts, its
    /// margin for proximity.
    pub fn query_limit(&self) -> (r: i64)
        ensures
            r == self.spec_query_limit(),
    {
        match self {
            GeometricQueryType::Contacts(p, _) => *p,
            GeometricQueryType::Proximity(m) => *m,
        }
    }

    /// The query's own distance limit.
    pub open spec fn spec_query_limit(&self) -> i64 {
        match *self {
            GeometricQueryType::Contacts(p, _) => p,
            GeometricQueryType::Proximity(m) => m,
        }
    }
}

/// A geometric object registered in the collision world.
pub struct CollisionObject<T> {
    /// The object's rigid position.
    pub position: Isometry,
    /// The object's shape.
    pub shape: Shape,
    /// The object's interaction groups.
    pub groups: CollisionGroups,
    /// The kind of query run for pairs involving this object.
    pub query_type: GeometricQueryType,
    /// The user payload carried by events.
    pub data: T,
    /// Identifier of the broad-phase proxy mirroring this object.
    pub proxy_id: u32,
    /// Tick of the last modification.
    pub timestamp: u64,
    /// The object's own handle.
    pub handle: u32,
}

/// The object's geometric data is in range.
pub open spec fn object_wf<T>(o: CollisionObject<T>) -> bool {
    &&& bounded(o.spec_position().translation, MAX_COORD as int)
    &&& shape_wf(o.spec_shape())
    &&& query_type_wf(o.spec_query_type())
}

impl<T> CollisionObject<T> {
    /// The object's position.
    pub open spec fn spec_position(&self) -> Isometry {
        self.position
    }

    /// The object's shape.
    pub open spec fn spec_shape(&self) -> Shape {
        self.shape
    }

    /// The object's groups.
    pub open spec fn spec_groups(&self) -> CollisionGroups {
        self.groups
    }

    /// The object's query type.
    pub open spec fn spec_query_type(&self) -> GeometricQueryType {
        self.query_type
    }

    /// The object's handle.
    pub open spec fn spec_handle(&self) -> u32 {
        self.handle
    }

    /// Builds an object from its parts.
    pub fn new(
        handle: u32,
        proxy_id: u32,
        position: Isometry,
        shape: Shape,
        groups: CollisionGroups,
        query_type: GeometricQueryType,
        data: T,
        timestamp: u64,
    ) -> (r: CollisionObject<T>)
        requires
            bounded(position.translation, MAX_COORD as int),
            shape_wf(shape),
            query_type_wf(query_type),
        ensures
            r.spec_position() == position,
            r.spec_shape() == shape,
            r.spec_groups() == groups,
            r.spec_query_type() == query_type,
            r.spec_handle() == handle,
            r.proxy_id == proxy_id,
            r.timestamp == timestamp,
            object_wf(r),
    {
        CollisionObject { position, shape, groups, query_type, data, proxy_id, timestamp, handle }
    }

    /// The object's position.
    pub fn position(&self) -> (r: &Isometry)
        ensures
            *r == self.spec_position(),
    {
        &self.position
    }

    /// The object's shape.
    pub fn shape(&self) -> (r: &Shape)
        ensures
            *r == self.spec_shape(),
    {
        &self.shape
    }

    /// The object's groups.
    pub fn collision_groups(&self) -> (r: &CollisionGroups)
        ensures
            *r == self.spec_groups(),
    {
        &self.groups
    }

    /// The object's query type.
    pub fn query_type(&self) -> (r: &GeometricQueryType)
        ensures
            *r == self.spec_query_type(),
    {
        &self.query_type
    }

    /// The object's handle.
    pub fn handle(&self) -> (r: u32)
        ensures
            r == self.spec_handle(),
    {
        self.handle
    }

    /// The user payload.
    pub fn data(&self) -> (r: &T) {
        &self.data
    }

    /// Moves the object to `position`, leaving every other field alone.
    pub fn set_position_field(&mut self, position: Isometry)
        requires
            bounded(position.translation, MAX_COORD as int),
        ensures
            final(self).spec_position() == position,
            final(self).spec_shape() == old(self).spec_shape(),
            final(self).spec_groups() == old(self).spec_groups(),
            final(self).spec_query_type() == old(self).spec_query_type(),
            final(self).spec_handle() == old(self).spec_handle(),
            final(self).proxy_id == old(self).proxy_id,
            final(self).timestamp == old(self).timestamp,
            object_wf(*old(self)) ==> object_wf(*final(self)),
    {
        self.position = position;
    }

    /// Replaces the query type, leaving every other field alone.
    pub fn set_query_type_field(&mut self, query_type: GeometricQueryType)
        requires
            query_type_wf(query_type),
        ensures
            final(self).spec_query_type() == query_type,
            final(self).spec_position() == old(self).spec_position(),
            final(self).spec_shape() == old(self).spec_shape(),
            final(self).spec_groups() == old(self).spec_groups(),
            final(self).spec_handle() == old(self).spec_handle(),
            final(self).proxy_id == old(self).proxy_id,
            final(self).timestamp == old(self).timestamp,
            object_wf(*old(self)) ==> object_wf(*final(self)),
    {
        self.query_type = query_type;
    }

    /// Stamps the object as modified at `timestamp`.
    pub fn stamp(&mut self, timestamp: u64)
        ensures
            final(self).timestamp == timestamp,
            final(self).spec_position() == old(self).spec_position(),
            final(self).spec_shape() == old(self).spec_shape(),
            final(self).spec_groups() == old(self).spec_groups(),
            final(self).spec_query_type() == old(self).spec_query_type(),
            final(self).spec_handle() == old(self).spec_handle(),
            final(self).proxy_id == old(self).proxy_id,
            object_wf(*old(self)) ==> object_wf(*final(self)),
    {
        self.timestamp = timestamp;
    }
}

/// The object store: a slab keyed by handle, reusing freed slots.
pub struct CollisionObjectSlab<T> {
    objects: Vec<Option<CollisionObject<T>>>,
    free: Vec<u32>,
}

impl<T> CollisionObjectSlab<T> {
    /// Whether `h` names a live object.
    pub closed spec fn has(self, h: u32) -> bool {
        h < self.objects@.len() && self.objects@[h as int] is Some
    }

    /// The live object named `h`.
    pub closed spec fn at(self, h: u32) -> CollisionObject<T> {
        self.objects@[h as int]->Some_0
    }

    /// The number of slots ever allocated.
    pub closed spec fn spec_num_slots(self) -> nat {
        self.objects@.len()
    }

    /// The slab's internal free-list invariant.
    pub closed spec fn wf(self) -> bool {
        &&& self.objects@.len() <= 0xFFFF_FFFF
        &&& (forall|k: int|
            0 <= k < self.free@.len() ==> (#[trigger] self.free@[k]) < self.objects@.len()
                && self.objects@[self.free@[k] as int] is None)
        &&& self.free@.no_duplicates()
        &&& (forall|h: u32| #[trigger] self.has(h) ==> self.at(h).spec_handle() == h)
    }

    /// Builds an empty store.
    pub fn new() -> (r: CollisionObjectSlab<T>)
        ensures
            r.wf(),
            forall|h: u32| !r.has(h),
            r.spec_num_slots() == 0,
    {
        CollisionObjectSlab { objects: Vec::new(), free: Vec::new() }
    }

    /// The handle the next insertion will use.
    pub fn next_handle(&self) -> (r: u32)
        requires
            self.wf(),
            self.spec_num_slots() < 0xFFFF_FFFF,
        ensures
            r == self.spec_next_handle_value(),
            !self.has(r),
    {
        if self.free.len() > 0 {
            self.free[self.free.len() - 1]
        } else {
            self.objects.len() as u32
        }
    }

    /// Stores `make_obj` under a fresh handle and returns the handle.
    pub fn insert(&mut self, obj: CollisionObject<T>) -> (r: u32)
        requires
            old(self).wf(),
            old(self).spec_num_slots() < 0xFFFF_FFFF,
            obj.spec_handle() == old(self).spec_next_handle_value(),
        ensures
            final(self).wf(),
            !old(self).has(r),
            final(self).has(r),
            final(self).at(r) == obj,
            r == old(self).spec_next_handle_value(),
            forall|h: u32| h != r ==> (#[trigger] final(self).has(h)) == old(self).has(h),
            forall|h: u32|
                h != r && old(self).has(h) ==> (#[trigger] final(self).at(h)) == old(self).at(h),
    {
        match self.free.pop() {
            Some(h) => {
                self.objects[h as usize] = Some(obj);
                proof {
                    assert forall|k: int|
                        0 <= k < self.free@.len() implies (#[trigger] self.free@[k])
                        < self.objects@.len() && self.objects@[self.free@[k] as int] is None by {
                        assert(old(self).free@[k] == self.free@[k]);
                    }
            assert(old(self).has(h) ==> old(self).at(h).spec_handle() == h);
            assert forall|o2: u32| #[trigger] self.has(o2) implies self.at(o2).spec_handle()
                == o2 by {
                if o2 != h {
                    assert(self.objects@[o2 as int] == old(self).objects@[o2 as int]);
                    assert(old(self).has(o2));
                    assert(old(self).at(o2).spec_handle() == o2);
                }
            }
                }
                h
            },
            None => {
                let h = self.objects.len() as u32;
                self.objects.push(Some(obj));
                proof {
            assert(old(self).has(h) ==> old(self).at(h).spec_handle() == h);
            assert forall|o2: u32| #[trigger] self.has(o2) implies self.at(o2).spec_handle()
                == o2 by {
                if o2 != h {
                    assert(self.objects@[o2 as int] == old(self).objects@[o2 as int]);
                    assert(old(self).has(o2));
                    assert(old(self).at(o2).spec_handle() == o2);
                }
            }
                }
                h
            },
        }
    }

    /// The handle `insert` will pick next.
    pub closed spec fn spec_next_handle_value(self) -> u32 {
        if self.free@.len() > 0 {
            self.free@.last()
        } else {
            self.objects@.len() as u32
        }
    }

    /// Removes and returns the object named `h`.
    pub fn take_out(&mut self, h: u32) -> (r: CollisionObject<T>)
        requires
            old(self).wf(),
            old(self).has(h),
        ensures
            final(self).wf(),
            r == old(self).at(h),
            !final(self).has(h),
            forall|o: u32| o != h ==> (#[trigger] final(self).has(o)) == old(self).has(o),
            forall|o: u32|
                o != h && old(self).has(o) ==> (#[trigger] final(self).at(o)) == old(self).at(o),
            final(self).spec_num_slots() == old(self).spec_num_slots(),
    {
        let slot = self.proxy_swap_none(h);
        self.free.push(h);
        proof {
            assert forall|k: int|
                0 <= k < self.free@.len() implies (#[trigger] self.free@[k])
                < self.objects@.len() && self.objects@[self.free@[k] as int] is None by {
                if k < self.free@.len() - 1 {
                    assert(old(self).free@[k] == self.free@[k]);
                }
            }
            assert(self.free@.no_duplicates()) by {
                assert forall|x: int, y: int|
                    0 <= x < self.free@.len() && 0 <= y < self.free@.len() && x
                    != y implies self.free@[x] != self.free@[y] by {
                    let last = self.free@.len() - 1;
                    if x < last && y < last {
                        assert(old(self).free@[x] == self.free@[x]);
                        assert(old(self).free@[y] == self.free@[y]);
                    } else {
                        let w = if x < last {
                            x
                        } else {
                            y
                        };
                        assert(old(self).free@[w] == self.free@[w]);
                        assert(old(self).objects@[self.free@[w] as int] is None);
                    }
                }
            }
            assert forall|o2: u32| #[trigger] self.has(o2) implies self.at(o2).spec_handle()
                == o2 by {
                if o2 != h {
                    assert(self.objects@[o2 as int] == old(self).objects@[o2 as int]);
                    assert(old(self).has(o2));
                    assert(old(self).at(o2).spec_handle() == o2);
                }
            }
        }
        match slot {
            Some(obj) => obj,
            None => unreached(),
        }
    }

    /// Swaps the slot `h` for `None` and hands its contents out.
    fn proxy_swap_none(&mut self, h: u32) -> (r: Option<CollisionObject<T>>)
        requires
            old(self).wf(),
            old(self).has(h),
        ensures
            r == Some(old(self).at(h)),
            final(self).objects@ == old(self).objects@.update(h as int, None),
            final(self).free == old(self).free,
    {
        let slot = &mut self.objects[h as usize];
        slot.take()
    }

    /// The number of slots ever allocated.
    pub fn num_slots(&self) -> (r: usize)
        ensures
            r == self.spec_num_slots(),
    {
        self.objects.len()
    }

    /// Whether `h` names a live object.
    pub fn has_handle(&self, h: u32) -> (r: bool)
        ensures
            r == self.has(h),
    {
        (h as usize) < self.objects.len() && self.objects[h as usize].is_some()
    }

    /// A reference to the live object named `h`.
    pub fn get(&self, h: u32) -> (r: &CollisionObject<T>)
        requires
            self.has(h),
        ensures
            *r == self.at(h),
    {
        match &self.objects[h as usize] {
            Some(o) => o,
            None => unreached(),
        }
    }

    /// Moves the object named `h` and stamps it.
    pub fn update_position(&mut self, h: u32, position: Isometry, timestamp: u64)
        requires
            old(self).wf(),
            old(self).has(h),
            bounded(position.translation, MAX_COORD as int),
        ensures
            final(self).wf(),
            final(self).has(h),
            final(self).at(h).spec_position() == position,
            final(self).at(h).timestamp == timestamp,
            final(self).at(h).spec_shape() == old(self).at(h).spec_shape(),
            final(self).at(h).spec_groups() == old(self).at(h).spec_groups(),
            final(self).at(h).spec_query_type() == old(self).at(h).spec_query_type(),
            final(self).at(h).spec_handle() == old(self).at(h).spec_handle(),
            final(self).at(h).proxy_id == old(self).at(h).proxy_id,
            object_wf(old(self).at(h)) ==> object_wf(final(self).at(h)),
            forall|o: u32| o != h ==> (#[trigger] final(self).has(o)) == old(self).has(o),
            forall|o: u32|
                o != h && old(self).has(o) ==> (#[trigger] final(self).at(o)) == old(self).at(o),
            final(self).spec_num_slots() == old(self).spec_num_slots(),
    {
        let slot = &mut self.objects[h as usize];
        match slot {
            Some(o) => {
                o.set_position_field(position);
                o.stamp(timestamp);
            },
            None => {
                proof {
                    assert(false);
                }
            },
        }
        proof {
            assert forall|k: int|
                0 <= k < self.free@.len() implies (#[trigger] self.free@[k])
                < self.objects@.len() && self.objects@[self.free@[k] as int] is None by {
                assert(old(self).free@[k] == self.free@[k]);
            }
            assert(old(self).has(h) ==> old(self).at(h).spec_handle() == h);
            assert forall|o2: u32| #[trigger] self.has(o2) implies self.at(o2).spec_handle()
                == o2 by {
                if o2 != h {
                    assert(self.objects@[o2 as int] == old(self).objects@[o2 as int]);
                    assert(old(self).has(o2));
                    assert(old(self).at(o2).spec_handle() == o2);
                }
            }
        }
    }

    /// Replaces the query type of the object named `h` and stamps it.
    pub fn update_query_type(&mut self, h: u32, query_type: GeometricQueryType, timestamp: u64)
        requires
            old(self).wf(),
            old(self).has(h),
            query_type_wf(query_type),
        ensures
            final(self).wf(),
            final(self).has(h),
            final(self).at(h).spec_query_type() == query_type,
            final(self).at(h).timestamp == timestamp,
            final(self).at(h).spec_position() == old(self).at(h).spec_position(),
            final(self).at(h).spec_shape() == old(self).at(h).spec_shape(),
            final(self).at(h).spec_groups() == old(self).at(h).spec_groups(),
            final(self).at(h).spec_handle() == old(self).at(h).spec_handle(),
            final(self).at(h).proxy_id == old(self).at(h).proxy_id,
            object_wf(old(self).at(h)) ==> object_wf(final(self).at(h)),
            forall|o: u32| o != h ==> (#[trigger] final(self).has(o)) == old(self).has(o),
            forall|o: u32|
                o != h && old(self).has(o) ==> (#[trigger] final(self).at(o)) == old(self).at(o),
            final(self).spec_num_slots() == old(self).spec_num_slots(),
    {
        let slot = &mut self.objects[h as usize];
        match slot {
            Some(o) => {
                o.set_query_type_field(query_type);
                o.stamp(timestamp);
            },
            None => {
                proof {
                    assert(false);
                }
            },
        }
        proof {
            assert forall|k: int|
                0 <= k < self.free@.len() implies (#[trigger] self.free@[k])
                < self.objects@.len() && self.objects@[self.free@[k] as int] is None by {
                assert(old(self).free@[k] == self.free@[k]);
            }
            assert(old(self).has(h) ==> old(self).at(h).spec_handle() == h);
            assert forall|o2: u32| #[trigger] self.has(o2) implies self.at(o2).spec_handle()
                == o2 by {
                if o2 != h {
                    assert(self.objects@[o2 as int] == old(self).objects@[o2 as int]);
                    assert(old(self).has(o2));
                    assert(old(self).at(o2).spec_handle() == o2);
                }
            }
        }
    }

    /// Stamps the object named `h` as modified at `timestamp`.
    pub fn stamp_object(&mut self, h: u32, timestamp: u64)
        requires
            old(self).wf(),
            old(self).has(h),
        ensures
            final(self).wf(),
            final(self).has(h),
            final(self).at(h).timestamp == timestamp,
            final(self).at(h).spec_position() == old(self).at(h).spec_position(),
            final(self).at(h).spec_shape() == old(self).at(h).spec_shape(),
            final(self).at(h).spec_groups() == old(self).at(h).spec_groups(),
            final(self).at(h).spec_query_type() == old(self).at(h).spec_query_type(),
            final(self).at(h).spec_handle() == old(self).at(h).spec_handle(),
            final(self).at(h).proxy_id == old(self).at(h).proxy_id,
            object_wf(old(self).at(h)) ==> object_wf(final(self).at(h)),
            forall|o: u32| o != h ==> (#[trigger] final(self).has(o)) == old(self).has(o),
            forall|o: u32|
                o != h && old(self).has(o) ==> (#[trigger] final(self).at(o)) == old(self).at(o),
            final(self).spec_num_slots() == old(self).spec_num_slots(),
    {
        let slot = &mut self.objects[h as usize];
        match slot {
            Some(o) => {
                o.stamp(timestamp);
            },
            None => {
                proof {
                    assert(false);
                }
            },
        }
        proof {
            assert forall|k: int|
                0 <= k < self.free@.len() implies (#[trigger] self.free@[k])
                < self.objects@.len() && self.objects@[self.free@[k] as int] is None by {
                assert(old(self).free@[k] == self.free@[k]);
            }
            assert(old(self).has(h) ==> old(self).at(h).spec_handle() == h);
            assert forall|o2: u32| #[trigger] self.has(o2) implies self.at(o2).spec_handle()
                == o2 by {
                if o2 != h {
                    assert(self.objects@[o2 as int] == old(self).objects@[o2 as int]);
                    assert(old(self).has(o2));
                    assert(old(self).at(o2).spec_handle() == o2);
                }
            }
        }
    }
}


/// The `Stopped` events a batch of erased contact entries publishes: one for
/// each entry that held at least one contact, in stored order.
pub open spec fn contact_removal_events(s: Seq<((u32, u32), ContactAlgorithm)>) -> Seq<
    ContactEvent,
>
    decreases s.len(),
{
    if s.len() == 0 {
        Seq::empty()
    } else {
        let rest = contact_removal_events(s.drop_last());
        if s.last().1.spec_num_contacts() > 0 {
            rest.push(ContactEvent::Stopped(s.last().0.0, s.last().0.1))
        } else {
            rest
        }
    }
}

/// The proximity-lost events a batch of erased proximity entries publishes:
/// one for each entry whose status was not `Disjoint`, in stored order.
pub open spec fn proximity_removal_events(s: Seq<((u32, u32), ProximityAlgorithm)>) -> Seq<
    ProximityEvent,
>
    decreases s.len(),
{
    if s.len() == 0 {
        Seq::empty()
    } else {
        let rest = proximity_removal_events(s.drop_last());
        if s.last().1.spec_proximity() != Proximity::Disjoint {
            rest.push(
                ProximityEvent {
                    collider1: s.last().0.0,
                    collider2: s.last().0.1,
                    prev_status: s.last().1.spec_proximity(),
                    new_status: Proximity::Disjoint,
                },
            )
        } else {
            rest
        }
    }
}

/// The entries left after erasing, handle by handle in order, everything
/// involving each handle.
pub open spec fn entries_after_removals<A>(
    s: Seq<((u32, u32), A)>,
    handles: Seq<u32>,
) -> Seq<((u32, u32), A)>
    decreases handles.len(),
{
    if handles.len() == 0 {
        s
    } else {
        entries_without(entries_after_removals(s, handles.drop_last()), handles.last())
    }
}

/// The contact events a batch of removals publishes: for each handle in
/// order, one `Stopped` per then-current entry of it that held a contact.
pub open spec fn contact_removal_event_chain(
    s: Seq<((u32, u32), ContactAlgorithm)>,
    handles: Seq<u32>,
) -> Seq<ContactEvent>
    decreases handles.len(),
{
    if handles.len() == 0 {
        Seq::empty()
    } else {
        contact_removal_event_chain(s, handles.drop_last()) + contact_removal_events(
            entries_with(entries_after_removals(s, handles.drop_last()), handles.last()),
        )
    }
}

/// The proximity events a batch of removals publishes: for each handle in
/// order, one proximity-lost event per then-current entry of it that was not
/// `Disjoint`.
pub open spec fn proximity_removal_event_chain(
    s: Seq<((u32, u32), ProximityAlgorithm)>,
    handles: Seq<u32>,
) -> Seq<ProximityEvent>
    decreases handles.len(),
{
    if handles.len() == 0 {
        Seq::empty()
    } else {
        proximity_removal_event_chain(s, handles.drop_last()) + proximity_removal_events(
            entries_with(entries_after_removals(s, handles.drop_last()), handles.last()),
        )
    }
}

/// The interaction filter the world hands to its broad phase: a pair of
/// handles may interact when they are distinct, both live, and their groups
/// pass each other's masks.
pub struct WorldPairFilter<'a, T> {
    /// The object store the filter consults.
    pub objects: &'a CollisionObjectSlab<T>,
}

/// Whether the world's group filter admits the pair of handles `(a, b)`:
/// distinct, both live, and their groups passing each other's masks.
pub open spec fn world_filter_allows<T>(objects: CollisionObjectSlab<T>, a: u32, b: u32) -> bool {
    &&& a != b
    &&& objects.has(a) && objects.has(b)
    &&& spec_groups_interact(objects.at(a).spec_groups(), objects.at(b).spec_groups())
}

impl<'a, T> BroadPhasePairFilter for WorldPairFilter<'a, T> {
    open spec fn allows(&self, a: u32, b: u32) -> bool {
        world_filter_allows(*self.objects, a, b)
    }

    fn is_pair_valid(&self, a: u32, b: u32) -> (r: bool) {
        a != b && self.objects.has_handle(a) && self.objects.has_handle(b)
            && self.objects.get(a).collision_groups().can_interact_with_groups(
            self.objects.get(b).collision_groups(),
        )
    }
}

/// Every live object is mirrored by a live broad-phase proxy carrying its
/// handle, and conversely.
pub open spec fn links_ok<T>(objects: CollisionObjectSlab<T>, bp: DbvtBroadPhase) -> bool {
    &&& (forall|h: u32|
        #[trigger] objects.has(h) ==> object_wf(objects.at(h)) && bp.is_active(
            objects.at(h).proxy_id,
        ) && bp.data_of(objects.at(h).proxy_id) == h)
    &&& (forall|id: u32|
        #[trigger] bp.is_active(id) ==> objects.has(bp.data_of(id)) && objects.at(
            bp.data_of(id),
        ).proxy_id == id)
}

/// Every narrow-phase entry names two live objects, and contact entries name
/// objects that both ask for contacts.
pub open spec fn np_entries_valid<T>(
    np: DefaultNarrowPhase<DefaultContactDispatcher, DefaultProximityDispatcher>,
    objects: CollisionObjectSlab<T>,
) -> bool {
    &&& np.wf()
    &&& (forall|j: int|
        0 <= j < np.contact_entries().len() ==> objects.has(
            (#[trigger] np.contact_entries()[j]).0.0,
        ) && objects.has(np.contact_entries()[j].0.1) && objects.at(
            np.contact_entries()[j].0.0,
        ).spec_query_type() is Contacts && objects.at(
            np.contact_entries()[j].0.1,
        ).spec_query_type() is Contacts)
    &&& (forall|j: int|
        0 <= j < np.proximity_entries().len() ==> objects.has(
            (#[trigger] np.proximity_entries()[j]).0.0,
        ) && objects.has(np.proximity_entries()[j].0.1))
}

/// A pair of the broad phase's overlap set after one update under the
/// world's group filter: either freshly discovered around a moved or created
/// proxy, or carried forward with neither endpoint moving.
pub open spec fn world_post_pair<T>(
    bp: DbvtBroadPhase,
    objects: CollisionObjectSlab<T>,
    a: u32,
    b: u32,
) -> bool {
    ||| {
        &&& a < b
        &&& bp.is_active(a) && bp.is_active(b)
        &&& bp.will_move(a) || bp.will_move(b)
        &&& aabb_overlaps(bp.post_loose(a), bp.post_loose(b))
        &&& world_filter_allows(objects, bp.data_of(a), bp.data_of(b))
    }
    ||| bp.carried_pair(a, b)
}

/// The narrow phase and event queues after the world forwarded the given
/// broad-phase reports, one `handle_interaction` call per report in order,
/// each on the payload handles of the report's proxies.
pub open spec fn reports_processed<T>(
    np0: DefaultNarrowPhase<DefaultContactDispatcher, DefaultProximityDispatcher>,
    np1: DefaultNarrowPhase<DefaultContactDispatcher, DefaultProximityDispatcher>,
    ce0: Seq<ContactEvent>,
    ce1: Seq<ContactEvent>,
    pe0: Seq<ProximityEvent>,
    pe1: Seq<ProximityEvent>,
    objects: CollisionObjectSlab<T>,
    bp: DbvtBroadPhase,
    reports: Seq<(u32, u32)>,
    started: bool,
) -> bool
    decreases reports.len(),
{
    if reports.len() == 0 {
        np1 == np0 && ce1 == ce0 && pe1 == pe0
    } else {
        exists|
            npm: DefaultNarrowPhase<DefaultContactDispatcher, DefaultProximityDispatcher>,
            cem: Seq<ContactEvent>,
            pem: Seq<ProximityEvent>,
        |
            reports_processed(
                np0,
                npm,
                ce0,
                cem,
                pe0,
                pem,
                objects,
                bp,
                reports.drop_last(),
                started,
            ) && #[trigger] npm.handle_interaction_post(
                np1,
                cem,
                ce1,
                pem,
                pe1,
                objects,
                bp.data_of(reports.last().0),
                bp.data_of(reports.last().1),
                started,
            )
    }
}

/// The collision world: the object store, the broad phase fed by it, the
/// narrow phase driven by broad-phase reports, and the event queues drained
/// by callers.
pub struct CollisionWorld<T> {
    objects: CollisionObjectSlab<T>,
    broad_phase: DbvtBroadPhase,
    narrow_phase: DefaultNarrowPhase<DefaultContactDispatcher, DefaultProximityDispatcher>,
    contact_events: ContactEvents,
    proximity_events: ProximityEvents,
    timestamp: u64,
}

impl<T> CollisionWorld<T> {
    /// The object store.
    pub closed spec fn spec_objects(self) -> CollisionObjectSlab<T> {
        self.objects
    }

    /// The broad phase.
    pub closed spec fn spec_broad_phase(self) -> DbvtBroadPhase {
        self.broad_phase
    }

    /// The narrow phase.
    pub closed spec fn spec_narrow_phase(self) -> DefaultNarrowPhase<
        DefaultContactDispatcher,
        DefaultProximityDispatcher,
    > {
        self.narrow_phase
    }

    /// The queued contact events.
    pub closed spec fn spec_contact_events(self) -> Seq<ContactEvent> {
        self.contact_events@
    }

    /// The queued proximity events.
    pub closed spec fn spec_proximity_events(self) -> Seq<ProximityEvent> {
        self.proximity_events@
    }

    /// The tick counter.
    pub closed spec fn spec_timestamp(self) -> u64 {
        self.timestamp
    }

    /// The world's invariant.
    pub closed spec fn wf(self) -> bool {
        &&& self.objects.wf()
        &&& self.broad_phase.wf()
        &&& links_ok(self.objects, self.broad_phase)
        &&& np_entries_valid(self.narrow_phase, self.objects)
    }

    /// Builds a world whose broad phase inflates bounding volumes by
    /// `margin`.
    pub fn new(margin: i64) -> (r: CollisionWorld<T>)
        requires
            0 <= margin <= MAX_COORD,
        ensures
            r.wf(),
            forall|h: u32| !r.spec_objects().has(h),
            r.spec_contact_events() == Seq::<ContactEvent>::empty(),
            r.spec_proximity_events() == Seq::<ProximityEvent>::empty(),
            r.spec_timestamp() == 0,
            r.spec_broad_phase().spec_margin() == margin,
            r.spec_broad_phase().spec_current() == Seq::<(u32, u32)>::empty(),
    {
        CollisionWorld {
            objects: CollisionObjectSlab::new(),
            broad_phase: DbvtBroadPhase::new(margin),
            narrow_phase: DefaultNarrowPhase::new(
                DefaultContactDispatcher,
                DefaultProximityDispatcher,
            ),
            contact_events: ContactEvents::new(),
            proximity_events: ProximityEvents::new(),
            timestamp: 0,
        }
    }

    /// Registers an object and returns its handle; the object takes part in
    /// interactions from the next update on.
    pub fn add(
        &mut self,
        position: Isometry,
        shape: Shape,
        groups: CollisionGroups,
        query_type: GeometricQueryType,
        data: T,
    ) -> (h: u32)
        requires
            old(self).wf(),
            bounded(position.translation, MAX_COORD as int),
            shape_wf(shape),
            query_type_wf(query_type),
            old(self).spec_objects().spec_num_slots() < 0xFFFF_FFFF,
            old(self).spec_broad_phase().spec_num_slots() < 0xFFFF_FFFF,
        ensures
            final(self).wf(),
            !old(self).spec_objects().has(h),
            final(self).spec_objects().has(h),
            final(self).spec_objects().at(h).spec_position() == position,
            final(self).spec_objects().at(h).spec_shape() == shape,
            final(self).spec_objects().at(h).spec_groups() == groups,
            final(self).spec_objects().at(h).spec_query_type() == query_type,
            final(self).spec_objects().at(h).timestamp == old(self).spec_timestamp(),
            forall|o: u32|
                o != h ==> (#[trigger] final(self).spec_objects().has(o)) == old(self).spec_objects().has(o),
            forall|o: u32|
                o != h && old(self).spec_objects().has(o) ==> (#[trigger] final(self).spec_objects().at(o)) == old(self).spec_objects().at(o),
            final(self).spec_narrow_phase() == old(self).spec_narrow_phase(),
            final(self).spec_contact_events() == old(self).spec_contact_events(),
            final(self).spec_proximity_events() == old(self).spec_proximity_events(),
            final(self).spec_timestamp() == old(self).spec_timestamp(),
            final(self).spec_broad_phase().spec_current() == old(self).spec_broad_phase().spec_current(),
    {
        let h = self.objects.next_handle();
        let bv: Aabb = shape.aabb(&position).loosened(query_type.query_limit());
        let proxy_id = self.broad_phase.create_proxy(bv, h);
        let obj = CollisionObject::new(
            h,
            proxy_id,
            position,
            shape,
            groups,
            query_type,
            data,
            self.timestamp,
        );
        let h2 = self.objects.insert(obj);
        proof {
            assert(h2 == h);
            assert forall|o: u32| #[trigger] self.objects.has(o) implies object_wf(
                self.objects.at(o),
            ) && self.broad_phase.is_active(self.objects.at(o).proxy_id) && self.broad_phase.data_of(
                self.objects.at(o).proxy_id,
            ) == o by {
                if o != h {
                    assert(old(self).objects.has(o));
                    assert(old(self).objects.at(o) == self.objects.at(o));
                    assert(old(self).broad_phase.is_active(old(self).objects.at(o).proxy_id));
                    if old(self).objects.at(o).proxy_id != proxy_id {
                        assert(DbvtBroadPhase::same_proxy(
                            old(self).broad_phase,
                            self.broad_phase,
                            old(self).objects.at(o).proxy_id,
                        ));
                    }
                }
            }
            assert forall|id: u32| #[trigger] self.broad_phase.is_active(id) implies
                self.objects.has(self.broad_phase.data_of(id)) && self.objects.at(
                self.broad_phase.data_of(id),
            ).proxy_id == id by {
                if id != proxy_id {
                    assert(DbvtBroadPhase::same_proxy(old(self).broad_phase, self.broad_phase, id));
                    assert(old(self).broad_phase.is_active(id));
                    assert(old(self).objects.has(old(self).broad_phase.data_of(id)));
                    assert(old(self).broad_phase.data_of(id) != h);
                }
            }
            assert forall|j: int|
                0 <= j < self.narrow_phase.contact_entries().len() implies self.objects.has(
                (#[trigger] self.narrow_phase.contact_entries()[j]).0.0,
            ) && self.objects.has(self.narrow_phase.contact_entries()[j].0.1) && self.objects.at(
                self.narrow_phase.contact_entries()[j].0.0,
            ).spec_query_type() is Contacts && self.objects.at(
                self.narrow_phase.contact_entries()[j].0.1,
            ).spec_query_type() is Contacts by {
                let e = self.narrow_phase.contact_entries()[j];
                assert(old(self).objects.has(e.0.0) && old(self).objects.has(e.0.1));
                assert(e.0.0 != h && e.0.1 != h);
            }
            assert forall|j: int|
                0 <= j < self.narrow_phase.proximity_entries().len() implies self.objects.has(
                (#[trigger] self.narrow_phase.proximity_entries()[j]).0.0,
            ) && self.objects.has(self.narrow_phase.proximity_entries()[j].0.1) by {
                let e = self.narrow_phase.proximity_entries()[j];
                assert(old(self).objects.has(e.0.0) && old(self).objects.has(e.0.1));
                assert(e.0.0 != h && e.0.1 != h);
            }
        }
        h
    }

    /// Pushes the events a batch of erased entries publishes.
    fn emit_removal_events(
        &mut self,
        cpurged: &Vec<((u32, u32), ContactAlgorithm)>,
        ppurged: &Vec<((u32, u32), ProximityAlgorithm)>,
    )
        ensures
            final(self).objects == old(self).objects,
            final(self).broad_phase == old(self).broad_phase,
            final(self).narrow_phase == old(self).narrow_phase,
            final(self).timestamp == old(self).timestamp,
            final(self).spec_contact_events() == old(self).spec_contact_events()
                + contact_removal_events(cpurged@),
            final(self).spec_proximity_events() == old(self).spec_proximity_events()
                + proximity_removal_events(ppurged@),
    {
        let ghost ce0 = self.contact_events@;
        let n_c: usize = cpurged.len();
        let mut i: usize = 0;
        while i < n_c
            invariant
                n_c == cpurged@.len(),
                0 <= i <= n_c,
                self.objects == old(self).objects,
                self.broad_phase == old(self).broad_phase,
                self.narrow_phase == old(self).narrow_phase,
                self.timestamp == old(self).timestamp,
                self.proximity_events@ == old(self).proximity_events@,
                self.contact_events@ == ce0 + contact_removal_events(cpurged@.take(i as int)),
            decreases n_c - i,
        {
            let e = cpurged[i];
            proof {
                let taken = cpurged@.take(i as int + 1);
                assert(taken.drop_last() =~= cpurged@.take(i as int));
                assert(taken.last() == cpurged@[i as int]);
            }
            if e.1.num_contacts() != 0 {
                self.contact_events.push(ContactEvent::Stopped(e.0.0, e.0.1));
            }
            i += 1;
        }
        proof {
            assert(cpurged@.take(n_c as int) =~= cpurged@);
        }
        let ghost pe0 = self.proximity_events@;
        let n_p: usize = ppurged.len();
        let mut i2: usize = 0;
        while i2 < n_p
            invariant
                n_p == ppurged@.len(),
                0 <= i2 <= n_p,
                self.objects == old(self).objects,
                self.broad_phase == old(self).broad_phase,
                self.narrow_phase == old(self).narrow_phase,
                self.timestamp == old(self).timestamp,
                self.contact_events@ == ce0 + contact_removal_events(cpurged@),
                self.proximity_events@ == pe0 + proximity_removal_events(ppurged@.take(i2 as int)),
            decreases n_p - i2,
        {
            let e = ppurged[i2];
            proof {
                let taken = ppurged@.take(i2 as int + 1);
                assert(taken.drop_last() =~= ppurged@.take(i2 as int));
                assert(taken.last() == ppurged@[i2 as int]);
            }
            let prev = e.1.proximity();
            if !matches!(prev, Proximity::Disjoint) {
                self.proximity_events.push(ProximityEvent::new(e.0.0, e.0.1, prev, Proximity::Disjoint));
            }
            i2 += 1;
        }
        proof {
            assert(ppurged@.take(n_p as int) =~= ppurged@);
        }
    }

    /// Removes one object: its proxy leaves the broad phase, every
    /// narrow-phase entry it takes part in is erased, and a `Stopped` or
    /// proximity-lost event is published for exactly the erased entries that
    /// held a non-empty state.
    pub fn remove_one(&mut self, h: u32)
        requires
            old(self).wf(),
            old(self).spec_objects().has(h),
        ensures
            final(self).wf(),
            !final(self).spec_objects().has(h),
            forall|o: u32|
                o != h ==> (#[trigger] final(self).spec_objects().has(o)) == old(self).spec_objects().has(o),
            forall|o: u32|
                o != h && old(self).spec_objects().has(o) ==> (#[trigger] final(self).spec_objects().at(o)) == old(self).spec_objects().at(o),
            final(self).spec_narrow_phase().contact_entries() == entries_without(
                old(self).spec_narrow_phase().contact_entries(),
                h,
            ),
            final(self).spec_narrow_phase().proximity_entries() == entries_without(
                old(self).spec_narrow_phase().proximity_entries(),
                h,
            ),
            final(self).spec_contact_events() == old(self).spec_contact_events()
                + contact_removal_events(
                entries_with(old(self).spec_narrow_phase().contact_entries(), h),
            ),
            final(self).spec_proximity_events() == old(self).spec_proximity_events()
                + proximity_removal_events(
                entries_with(old(self).spec_narrow_phase().proximity_entries(), h),
            ),
            final(self).spec_timestamp() == old(self).spec_timestamp(),
    {
        let proxy_id: u32 = self.objects.get(h).proxy_id;
        let _removed = self.objects.take_out(h);
        let mut ids: Vec<u32> = Vec::new();
        ids.push(proxy_id);
        proof {
            assert(ids@.no_duplicates());
            assert(ids@[0] == proxy_id);
            assert forall|k: int| 0 <= k < ids@.len() implies old(self).broad_phase.is_active(
                #[trigger] ids@[k],
            ) by {
                assert(ids@[k] == proxy_id);
            }
        }
        let _pairs = self.broad_phase.remove(&ids);
        let (cpurged, ppurged) = self.narrow_phase.invalidate(h);
        proof {
            lemma_entries_split_props::<ContactAlgorithm>(
                old(self).narrow_phase.contact_entries(),
                h,
            );
            lemma_entries_split_props::<ProximityAlgorithm>(
                old(self).narrow_phase.proximity_entries(),
                h,
            );
            assert forall|o: u32| #[trigger] self.objects.has(o) implies object_wf(
                self.objects.at(o),
            ) && self.broad_phase.is_active(self.objects.at(o).proxy_id) && self.broad_phase.data_of(
                self.objects.at(o).proxy_id,
            ) == o by {
                assert(o != h);
                assert(old(self).objects.has(o));
                assert(old(self).objects.at(o) == self.objects.at(o));
                let pid = old(self).objects.at(o).proxy_id;
                assert(old(self).broad_phase.is_active(pid));
                assert(pid != proxy_id) by {
                    if pid == proxy_id {
                        assert(old(self).broad_phase.data_of(pid) == o);
                        assert(old(self).objects.at(h).proxy_id == proxy_id);
                        assert(old(self).broad_phase.data_of(proxy_id) == h);
                    }
                }
                assert(!ids@.contains(pid)) by {
                    if ids@.contains(pid) {
                        let k = choose|k: int| 0 <= k < ids@.len() && (#[trigger] ids@[k]) == pid;
                        assert(ids@[k] == proxy_id);
                    }
                }
                assert(DbvtBroadPhase::same_proxy(old(self).broad_phase, self.broad_phase, pid));
            }
            assert forall|id: u32| #[trigger] self.broad_phase.is_active(id) implies
                self.objects.has(self.broad_phase.data_of(id)) && self.objects.at(
                self.broad_phase.data_of(id),
            ).proxy_id == id by {
                assert(id != proxy_id) by {
                    assert(ids@.contains(proxy_id));
                }
                assert(!ids@.contains(id)) by {
                    if ids@.contains(id) {
                        let k = choose|k: int| 0 <= k < ids@.len() && (#[trigger] ids@[k]) == id;
                        assert(ids@[k] == proxy_id);
                    }
                }
                assert(DbvtBroadPhase::same_proxy(old(self).broad_phase, self.broad_phase, id));
                assert(old(self).broad_phase.is_active(id));
                assert(old(self).broad_phase.data_of(id) != h);
            }
            assert forall|j: int|
                0 <= j < self.narrow_phase.contact_entries().len() implies self.objects.has(
                (#[trigger] self.narrow_phase.contact_entries()[j]).0.0,
            ) && self.objects.has(self.narrow_phase.contact_entries()[j].0.1) && self.objects.at(
                self.narrow_phase.contact_entries()[j].0.0,
            ).spec_query_type() is Contacts && self.objects.at(
                self.narrow_phase.contact_entries()[j].0.1,
            ).spec_query_type() is Contacts by {
                let e = self.narrow_phase.contact_entries()[j];
                assert(old(self).narrow_phase.contact_entries().contains(e));
                let j2 = choose|j2: int|
                    0 <= j2 < old(self).narrow_phase.contact_entries().len() && (
                    #[trigger] old(self).narrow_phase.contact_entries()[j2]) == e;
                assert(e.0.0 != h && e.0.1 != h);
            }
            assert forall|j: int|
                0 <= j < self.narrow_phase.proximity_entries().len() implies self.objects.has(
                (#[trigger] self.narrow_phase.proximity_entries()[j]).0.0,
            ) && self.objects.has(self.narrow_phase.proximity_entries()[j].0.1) by {
                let e = self.narrow_phase.proximity_entries()[j];
                assert(old(self).narrow_phase.proximity_entries().contains(e));
                let j2 = choose|j2: int|
                    0 <= j2 < old(self).narrow_phase.proximity_entries().len() && (
                    #[trigger] old(self).narrow_phase.proximity_entries()[j2]) == e;
                assert(e.0.0 != h && e.0.1 != h);
            }
        }
        self.emit_removal_events(&cpurged, &ppurged);
    }

    /// Removes the given objects, publishing the events each removal owes.
    pub fn remove(&mut self, handles: &Vec<u32>)
        requires
            old(self).wf(),
            forall|k: int|
                0 <= k < handles@.len() ==> old(self).spec_objects().has(#[trigger] handles@[k]),
            handles@.no_duplicates(),
        ensures
            final(self).wf(),
            forall|o: u32| handles@.contains(o) ==> !final(self).spec_objects().has(o),
            forall|o: u32|
                !handles@.contains(o) ==> (#[trigger] final(self).spec_objects().has(o)) == old(self).spec_objects().has(o),
            forall|o: u32|
                !handles@.contains(o) && old(self).spec_objects().has(o) ==> (#[trigger] final(self).spec_objects().at(o)) == old(self).spec_objects().at(o),
            final(self).spec_narrow_phase().contact_entries() == entries_after_removals(
                old(self).spec_narrow_phase().contact_entries(),
                handles@,
            ),
            final(self).spec_narrow_phase().proximity_entries() == entries_after_removals(
                old(self).spec_narrow_phase().proximity_entries(),
                handles@,
            ),
            final(self).spec_contact_events() == old(self).spec_contact_events()
                + contact_removal_event_chain(
                old(self).spec_narrow_phase().contact_entries(),
                handles@,
            ),
            final(self).spec_proximity_events() == old(self).spec_proximity_events()
                + proximity_removal_event_chain(
                old(self).spec_narrow_phase().proximity_entries(),
                handles@,
            ),
            final(self).spec_timestamp() == old(self).spec_timestamp(),
    {
        let n: usize = handles.len();
        let mut i: usize = 0;
        while i < n
            invariant
                n == handles@.len(),
                0 <= i <= n,
                self.wf(),
                handles@.no_duplicates(),
                forall|k: int|
                    0 <= k < handles@.len() ==> old(self).spec_objects().has(
                        #[trigger] handles@[k],
                    ),
                forall|o: u32| handles@.take(i as int).contains(o) ==> !self.spec_objects().has(o),
                forall|o: u32|
                    !handles@.take(i as int).contains(o) ==> (
                    #[trigger] self.spec_objects().has(o)) == old(self).spec_objects().has(o),
                forall|o: u32|
                    !handles@.take(i as int).contains(o) && old(self).spec_objects().has(o) ==> (
                    #[trigger] self.spec_objects().at(o)) == old(self).spec_objects().at(o),
                self.spec_narrow_phase().contact_entries() == entries_after_removals(
                    old(self).spec_narrow_phase().contact_entries(),
                    handles@.take(i as int),
                ),
                self.spec_narrow_phase().proximity_entries() == entries_after_removals(
                    old(self).spec_narrow_phase().proximity_entries(),
                    handles@.take(i as int),
                ),
                self.spec_contact_events() == old(self).spec_contact_events()
                    + contact_removal_event_chain(
                    old(self).spec_narrow_phase().contact_entries(),
                    handles@.take(i as int),
                ),
                self.spec_proximity_events() == old(self).spec_proximity_events()
                    + proximity_removal_event_chain(
                    old(self).spec_narrow_phase().proximity_entries(),
                    handles@.take(i as int),
                ),
                self.timestamp == old(self).timestamp,
            decreases n - i,
        {
            let h = handles[i];
            proof {
                assert(!handles@.take(i as int).contains(h)) by {
                    if handles@.take(i as int).contains(h) {
                        let k = choose|k: int|
                            0 <= k < i && (#[trigger] handles@.take(i as int)[k]) == h;
                        assert(handles@[k] == handles@[i as int]);
                    }
                }
            }
            let ghost mid = *self;
            self.remove_one(h);
            proof {
                assert forall|o: u32|
                    handles@.take(i as int + 1).contains(o) implies !self.spec_objects().has(
                    o,
                ) by {
                    if o != h {
                        assert(handles@.take(i as int).contains(o)) by {
                            let k = choose|k: int|
                                0 <= k <= i && (#[trigger] handles@.take(i as int + 1)[k]) == o;
                            assert(handles@.take(i as int)[k] == o);
                        }
                        assert(!mid.spec_objects().has(o));
                    }
                }
                assert forall|o: u32|
                    !handles@.take(i as int + 1).contains(o) implies (
                #[trigger] self.spec_objects().has(o)) == old(self).spec_objects().has(o) && (old(
                    self,
                ).spec_objects().has(o) ==> self.spec_objects().at(o) == old(
                    self,
                ).spec_objects().at(o)) by {
                    assert(!handles@.take(i as int).contains(o)) by {
                        if handles@.take(i as int).contains(o) {
                            let k = choose|k: int|
                                0 <= k < i && (#[trigger] handles@.take(i as int)[k]) == o;
                            assert(handles@.take(i as int + 1)[k] == o);
                        }
                    }
                    assert(o != h) by {
                        assert(handles@.take(i as int + 1)[i as int] == h);
                    }
                    assert(mid.spec_objects().has(o) == old(self).spec_objects().has(o));
                }
                let taken = handles@.take(i as int + 1);
                assert(taken.drop_last() =~= handles@.take(i as int));
                assert(taken.last() == handles@[i as int]);
                assert(self.spec_narrow_phase().contact_entries() == entries_after_removals(
                    old(self).spec_narrow_phase().contact_entries(),
                    taken,
                ));
                assert(self.spec_contact_events() == old(self).spec_contact_events()
                    + contact_removal_event_chain(
                    old(self).spec_narrow_phase().contact_entries(),
                    taken,
                ));
            }
            i += 1;
        }
        proof {
            assert(handles@.take(n as int) =~= handles@);
            assert forall|o: u32| handles@.contains(o) implies !self.spec_objects().has(o) by {}
            assert forall|o: u32|
                !handles@.contains(o) implies (#[trigger] self.spec_objects().has(o)) == old(self).spec_objects().has(o) by {}
        }
    }

    /// Moves the object `h`: the store is updated and stamped at once, and
    /// the broad phase is told the new tight bounding volume, to take effect
    /// at the next update.
    pub fn set_position(&mut self, h: u32, position: Isometry)
        requires
            old(self).wf(),
            old(self).spec_objects().has(h),
            bounded(position.translation, MAX_COORD as int),
        ensures
            final(self).wf(),
            final(self).spec_objects().has(h),
            final(self).spec_objects().at(h).spec_position() == position,
            final(self).spec_objects().at(h).timestamp == old(self).spec_timestamp(),
            final(self).spec_objects().at(h).spec_shape() == old(self).spec_objects().at(
                h,
            ).spec_shape(),
            final(self).spec_objects().at(h).spec_query_type() == old(self).spec_objects().at(
                h,
            ).spec_query_type(),
            forall|o: u32|
                (#[trigger] final(self).spec_objects().has(o)) == old(self).spec_objects().has(o),
            forall|o: u32|
                o != h && old(self).spec_objects().has(o) ==> (#[trigger] final(self).spec_objects().at(o)) == old(self).spec_objects().at(o),
            final(self).spec_broad_phase().pending_of(
                final(self).spec_objects().at(h).proxy_id,
            ) == Some(
                aabb_loosened(
                    spec_shape_aabb(
                        old(self).spec_objects().at(h).spec_shape(),
                        position.translation,
                    ),
                    old(self).spec_objects().at(h).spec_query_type().spec_query_limit() as int,
                ),
            ),
            final(self).spec_narrow_phase() == old(self).spec_narrow_phase(),
            final(self).spec_contact_events() == old(self).spec_contact_events(),
            final(self).spec_proximity_events() == old(self).spec_proximity_events(),
            final(self).spec_timestamp() == old(self).spec_timestamp(),
    {
        self.objects.update_position(h, position, self.timestamp);
        let o = self.objects.get(h);
        let bv: Aabb = o.shape().aabb(o.position()).loosened(o.query_type().query_limit());
        let proxy_id: u32 = o.proxy_id;
        self.broad_phase.deferred_set_bounding_volume(proxy_id, bv);
        proof {
            assert forall|o2: u32| #[trigger] self.objects.has(o2) implies object_wf(
                self.objects.at(o2),
            ) && self.broad_phase.is_active(self.objects.at(o2).proxy_id)
                && self.broad_phase.data_of(self.objects.at(o2).proxy_id) == o2 by {
                assert(old(self).objects.has(o2));
                let pid = self.objects.at(o2).proxy_id;
                assert(pid == old(self).objects.at(o2).proxy_id);
                if pid != proxy_id {
                    assert(DbvtBroadPhase::same_proxy(old(self).broad_phase, self.broad_phase, pid));
                }
            }
            assert forall|id: u32| #[trigger] self.broad_phase.is_active(id) implies
                self.objects.has(self.broad_phase.data_of(id)) && self.objects.at(
                self.broad_phase.data_of(id),
            ).proxy_id == id by {
                if id != proxy_id {
                    assert(DbvtBroadPhase::same_proxy(old(self).broad_phase, self.broad_phase, id));
                }
                assert(old(self).broad_phase.is_active(id));
            }
            assert forall|j: int|
                0 <= j < self.narrow_phase.contact_entries().len() implies self.objects.has(
                (#[trigger] self.narrow_phase.contact_entries()[j]).0.0,
            ) && self.objects.has(self.narrow_phase.contact_entries()[j].0.1) && self.objects.at(
                self.narrow_phase.contact_entries()[j].0.0,
            ).spec_query_type() is Contacts && self.objects.at(
                self.narrow_phase.contact_entries()[j].0.1,
            ).spec_query_type() is Contacts by {
                let e = self.narrow_phase.contact_entries()[j];
                assert(old(self).objects.has(e.0.0) && old(self).objects.has(e.0.1));
            }
            assert forall|j: int|
                0 <= j < self.narrow_phase.proximity_entries().len() implies self.objects.has(
                (#[trigger] self.narrow_phase.proximity_entries()[j]).0.0,
            ) && self.objects.has(self.narrow_phase.proximity_entries()[j].0.1) by {
                let e = self.narrow_phase.proximity_entries()[j];
                assert(old(self).objects.has(e.0.0) && old(self).objects.has(e.0.1));
            }
        }
    }

    /// Changes the query type of the object `h`: every narrow-phase entry it
    /// takes part in is erased — publishing the events the old state owes —
    /// and the next overlap report starts a fresh algorithm.
    pub fn set_query_type(&mut self, h: u32, query_type: GeometricQueryType)
        requires
            old(self).wf(),
            old(self).spec_objects().has(h),
            query_type_wf(query_type),
        ensures
            final(self).wf(),
            final(self).spec_objects().has(h),
            final(self).spec_objects().at(h).spec_query_type() == query_type,
            final(self).spec_objects().at(h).timestamp == old(self).spec_timestamp(),
            forall|o: u32|
                (#[trigger] final(self).spec_objects().has(o)) == old(self).spec_objects().has(o),
            forall|o: u32|
                o != h && old(self).spec_objects().has(o) ==> (#[trigger] final(self).spec_objects().at(o)) == old(self).spec_objects().at(o),
            final(self).spec_narrow_phase().contact_entries() == entries_without(
                old(self).spec_narrow_phase().contact_entries(),
                h,
            ),
            final(self).spec_narrow_phase().proximity_entries() == entries_without(
                old(self).spec_narrow_phase().proximity_entries(),
                h,
            ),
            final(self).spec_contact_events() == old(self).spec_contact_events()
                + contact_removal_events(
                entries_with(old(self).spec_narrow_phase().contact_entries(), h),
            ),
            final(self).spec_proximity_events() == old(self).spec_proximity_events()
                + proximity_removal_events(
                entries_with(old(self).spec_narrow_phase().proximity_entries(), h),
            ),
            final(self).spec_timestamp() == old(self).spec_timestamp(),
    {
        self.objects.update_query_type(h, query_type, self.timestamp);
        let (cpurged, ppurged) = self.narrow_phase.invalidate(h);
        proof {
            lemma_entries_split_props::<ContactAlgorithm>(
                old(self).narrow_phase.contact_entries(),
                h,
            );
            lemma_entries_split_props::<ProximityAlgorithm>(
                old(self).narrow_phase.proximity_entries(),
                h,
            );
            assert forall|o2: u32| #[trigger] self.objects.has(o2) implies object_wf(
                self.objects.at(o2),
            ) && self.broad_phase.is_active(self.objects.at(o2).proxy_id)
                && self.broad_phase.data_of(self.objects.at(o2).proxy_id) == o2 by {
                assert(old(self).objects.has(o2));
                assert(self.objects.at(o2).proxy_id == old(self).objects.at(o2).proxy_id);
            }
            assert forall|id: u32| #[trigger] self.broad_phase.is_active(id) implies
                self.objects.has(self.broad_phase.data_of(id)) && self.objects.at(
                self.broad_phase.data_of(id),
            ).proxy_id == id by {
                assert(old(self).broad_phase.is_active(id));
            }
            assert forall|j: int|
                0 <= j < self.narrow_phase.contact_entries().len() implies self.objects.has(
                (#[trigger] self.narrow_phase.contact_entries()[j]).0.0,
            ) && self.objects.has(self.narrow_phase.contact_entries()[j].0.1) && self.objects.at(
                self.narrow_phase.contact_entries()[j].0.0,
            ).spec_query_type() is Contacts && self.objects.at(
                self.narrow_phase.contact_entries()[j].0.1,
            ).spec_query_type() is Contacts by {
                let e = self.narrow_phase.contact_entries()[j];
                assert(old(self).narrow_phase.contact_entries().contains(e));
                let j2 = choose|j2: int|
                    0 <= j2 < old(self).narrow_phase.contact_entries().len() && (
                    #[trigger] old(self).narrow_phase.contact_entries()[j2]) == e;
                assert(e.0.0 != h && e.0.1 != h);
            }
            assert forall|j: int|
                0 <= j < self.narrow_phase.proximity_entries().len() implies self.objects.has(
                (#[trigger] self.narrow_phase.proximity_entries()[j]).0.0,
            ) && self.objects.has(self.narrow_phase.proximity_entries()[j].0.1) by {
                let e = self.narrow_phase.proximity_entries()[j];
                assert(old(self).narrow_phase.proximity_entries().contains(e));
                let j2 = choose|j2: int|
                    0 <= j2 < old(self).narrow_phase.proximity_entries().len() && (
                    #[trigger] old(self).narrow_phase.proximity_entries()[j2]) == e;
                assert(e.0.0 != h && e.0.1 != h);
            }
        }
        self.emit_removal_events(&cpurged, &ppurged);
    }

    /// One possible accounting of a tick from `self` to `post`: `started` and
    /// `stopped` are the duplicate-free delta of the overlap set, the narrow
    /// phase and the freshly cleared queues fold `handle_interaction_post`
    /// over them in order (started first, reaching `npa`, then stopped,
    /// reaching `npm`), and the final state adds the narrow-phase tick at the
    /// pre-increment timestamp.
    pub open spec fn tick_post(
        self,
        post: CollisionWorld<T>,
        started: Seq<(u32, u32)>,
        stopped: Seq<(u32, u32)>,
        npa: DefaultNarrowPhase<DefaultContactDispatcher, DefaultProximityDispatcher>,
        cea: Seq<ContactEvent>,
        pea: Seq<ProximityEvent>,
        npm: DefaultNarrowPhase<DefaultContactDispatcher, DefaultProximityDispatcher>,
        cem: Seq<ContactEvent>,
        pem: Seq<ProximityEvent>,
    ) -> bool {
        &&& started.no_duplicates()
        &&& (forall|p: (u32, u32)|
            #[trigger] started.contains(p) <==> (post.spec_broad_phase().pairs().contains(p)
                && !self.spec_broad_phase().pairs().contains(p)))
        &&& stopped.no_duplicates()
        &&& (forall|p: (u32, u32)|
            #[trigger] stopped.contains(p) <==> (self.spec_broad_phase().pairs().contains(p)
                && !post.spec_broad_phase().pairs().contains(p)))
        &&& reports_processed(
            self.spec_narrow_phase(),
            npa,
            Seq::<ContactEvent>::empty(),
            cea,
            Seq::<ProximityEvent>::empty(),
            pea,
            self.spec_objects(),
            post.spec_broad_phase(),
            started,
            true,
        )
        &&& reports_processed(
            npa,
            npm,
            cea,
            cem,
            pea,
            pem,
            self.spec_objects(),
            post.spec_broad_phase(),
            stopped,
            false,
        )
        &&& post.spec_narrow_phase().contact_entries().len() == npm.contact_entries().len()
        &&& (forall|j: int|
            0 <= j < npm.contact_entries().len() ==> (
            #[trigger] post.spec_narrow_phase().contact_entries()[j]).0
                == npm.contact_entries()[j].0 && post.spec_narrow_phase().contact_entries()[j].1
                == crate::narrow_phase::contact_entry_updated(
                npm.contact_entries()[j],
                self.spec_objects(),
                self.spec_timestamp(),
            ))
        &&& post.spec_contact_events() == cem + crate::narrow_phase::contact_tick_events(
            npm.contact_entries(),
            self.spec_objects(),
            self.spec_timestamp(),
        )
        &&& post.spec_narrow_phase().proximity_entries().len() == npm.proximity_entries().len()
        &&& (forall|j: int|
            0 <= j < npm.proximity_entries().len() ==> (
            #[trigger] post.spec_narrow_phase().proximity_entries()[j]).0
                == npm.proximity_entries()[j].0 && post.spec_narrow_phase().proximity_entries()[j].1
                == crate::narrow_phase::proximity_entry_updated(
                npm.proximity_entries()[j],
                self.spec_objects(),
                self.spec_timestamp(),
            ))
        &&& post.spec_proximity_events() == pem + crate::narrow_phase::proximity_tick_events(
            npm.proximity_entries(),
            self.spec_objects(),
            self.spec_timestamp(),
        )
    }

    /// One tick of the pipeline: the event queues are cleared, the broad
    /// phase applies deferred changes and reports its overlap delta under the
    /// world's group filter, every report drives the narrow phase's entry
    /// bookkeeping, and the narrow phase then recomputes the pairs whose
    /// endpoints were stamped this tick, publishing their events.
    ///
    /// The contract pins the tick down: the new overlap set is exactly the
    /// pairs `world_post_pair` admits; duplicate-free started and stopped
    /// report sequences forming its delta were forwarded to the narrow phase
    /// in that order (started first) on freshly cleared queues; and the final
    /// narrow phase and queues are that fold followed by the tick's own entry
    /// updates and events.
    pub fn update(&mut self)
        requires
            old(self).wf(),
            old(self).spec_timestamp() < 0xFFFF_FFFF_FFFF_FFFF,
        ensures
            final(self).wf(),
            final(self).spec_timestamp() == old(self).spec_timestamp() + 1,
            final(self).spec_objects() == old(self).spec_objects(),
            forall|p: (u32, u32)|
                #[trigger] final(self).spec_broad_phase().pairs().contains(p) <==> world_post_pair(
                    old(self).spec_broad_phase(),
                    old(self).spec_objects(),
                    p.0,
                    p.1,
                ),
            final(self).spec_broad_phase().spec_current().no_duplicates(),
            exists|
                started: Seq<(u32, u32)>,
                stopped: Seq<(u32, u32)>,
                npa: DefaultNarrowPhase<DefaultContactDispatcher, DefaultProximityDispatcher>,
                cea: Seq<ContactEvent>,
                pea: Seq<ProximityEvent>,
                npm: DefaultNarrowPhase<DefaultContactDispatcher, DefaultProximityDispatcher>,
                cem: Seq<ContactEvent>,
                pem: Seq<ProximityEvent>,
            |
                #[trigger] old(self).tick_post(
                    *final(self),
                    started,
                    stopped,
                    npa,
                    cea,
                    pea,
                    npm,
                    cem,
                    pem,
                ),
    {
        self.contact_events.clear();
        self.proximity_events.clear();
        let ghost ts1 = self.timestamp;
        let ghost np0 = self.narrow_phase;
        let (started, stopped) = {
            let filter = WorldPairFilter { objects: &self.objects };
            let r = self.broad_phase.update(&filter);
            proof {
                // The generic filter facts, restated without the filter value.
                assert forall|p: (u32, u32)|
                    #[trigger] self.broad_phase.pairs().contains(p) <==> world_post_pair(
                        old(self).spec_broad_phase(),
                        old(self).spec_objects(),
                        p.0,
                        p.1,
                    ) by {
                    assert(self.broad_phase.pairs().contains(p) <==> old(self).spec_broad_phase().post_pair(filter, p.0, p.1));
                }
            }
            r
        };
        let ghost objs0 = self.objects;
        let ghost bp1 = self.broad_phase;
        proof {
            bp1.lemma_pairs_ok();
            assert forall|k: int|
                0 <= k < started@.len() implies bp1.pairs().contains(#[trigger] started@[k]) by {
                assert(started@.contains(started@[k]));
            }
            assert forall|k: int|
                0 <= k < stopped@.len() implies old(self).spec_broad_phase().pairs().contains(
                #[trigger] stopped@[k],
            ) && bp1.is_active(stopped@[k].0) && bp1.is_active(stopped@[k].1) && stopped@[k].0
                != stopped@[k].1 by {
                assert(stopped@.contains(stopped@[k]));
                old(self).spec_broad_phase().lemma_pairs_ok();
                assert(old(self).spec_broad_phase().pair_ok(stopped@[k]));
            }
        }
        let n_s: usize = started.len();
        let mut i: usize = 0;
        while i < n_s
            invariant
                n_s == started@.len(),
                0 <= i <= n_s,
                self.objects == objs0,
                objs0.wf(),
                self.timestamp == ts1,
                self.broad_phase == bp1,
                bp1.wf(),
                links_ok(objs0, bp1),
                np_entries_valid(self.narrow_phase, objs0),
                forall|k: int|
                    0 <= k < started@.len() ==> bp1.pairs().contains(#[trigger] started@[k]),
                reports_processed(
                    np0,
                    self.narrow_phase,
                    Seq::<ContactEvent>::empty(),
                    self.contact_events@,
                    Seq::<ProximityEvent>::empty(),
                    self.proximity_events@,
                    objs0,
                    bp1,
                    started@.take(i as int),
                    true,
                ),
            decreases n_s - i,
        {
            let p = started[i];
            proof {
                assert(bp1.pairs().contains(p));
                bp1.lemma_pairs_ok();
                assert(bp1.pair_ok(p));
            }
            let h1 = self.broad_phase.proxy_data(p.0);
            let h2 = self.broad_phase.proxy_data(p.1);
            proof {
                assert(self.objects.has(h1) && self.objects.has(h2));
                assert(h1 != h2) by {
                    assert(self.objects.at(h1).proxy_id == p.0);
                    assert(self.objects.at(h2).proxy_id == p.1);
                }
            }
            let ghost np_before = self.narrow_phase;
            let ghost ce_before = self.contact_events@;
            let ghost pe_before = self.proximity_events@;
            self.narrow_phase.handle_interaction(
                &mut self.contact_events,
                &mut self.proximity_events,
                &self.objects,
                h1,
                h2,
                true,
            );
            proof {
                self.lemma_np_valid_after_interaction(h1, h2);
                let taken = started@.take(i as int + 1);
                assert(taken.drop_last() =~= started@.take(i as int));
                assert(taken.last() == started@[i as int]);
                assert(np_before.handle_interaction_post(
                    self.narrow_phase,
                    ce_before,
                    self.contact_events@,
                    pe_before,
                    self.proximity_events@,
                    objs0,
                    bp1.data_of(taken.last().0),
                    bp1.data_of(taken.last().1),
                    true,
                ));
                assert(reports_processed(
                    np0,
                    self.narrow_phase,
                    Seq::<ContactEvent>::empty(),
                    self.contact_events@,
                    Seq::<ProximityEvent>::empty(),
                    self.proximity_events@,
                    objs0,
                    bp1,
                    taken,
                    true,
                ));
            }
            i += 1;
        }
        proof {
            assert(started@.take(n_s as int) =~= started@);
        }
        let ghost npa = self.narrow_phase;
        let ghost cea = self.contact_events@;
        let ghost pea = self.proximity_events@;
        let n_t: usize = stopped.len();
        let mut i2: usize = 0;
        while i2 < n_t
            invariant
                n_t == stopped@.len(),
                0 <= i2 <= n_t,
                self.objects == objs0,
                objs0.wf(),
                self.timestamp == ts1,
                self.broad_phase == bp1,
                bp1.wf(),
                links_ok(objs0, bp1),
                np_entries_valid(self.narrow_phase, objs0),
                forall|k: int|
                    0 <= k < stopped@.len() ==> bp1.is_active((#[trigger] stopped@[k]).0)
                        && bp1.is_active(stopped@[k].1) && stopped@[k].0 != stopped@[k].1,
                reports_processed(
                    npa,
                    self.narrow_phase,
                    cea,
                    self.contact_events@,
                    pea,
                    self.proximity_events@,
                    objs0,
                    bp1,
                    stopped@.take(i2 as int),
                    false,
                ),
            decreases n_t - i2,
        {
            let p = stopped[i2];
            let h1 = self.broad_phase.proxy_data(p.0);
            let h2 = self.broad_phase.proxy_data(p.1);
            proof {
                assert(self.objects.has(h1) && self.objects.has(h2));
                assert(h1 != h2) by {
                    assert(self.objects.at(h1).proxy_id == p.0);
                    assert(self.objects.at(h2).proxy_id == p.1);
                }
            }
            let ghost np_before = self.narrow_phase;
            let ghost ce_before = self.contact_events@;
            let ghost pe_before = self.proximity_events@;
            self.narrow_phase.handle_interaction(
                &mut self.contact_events,
                &mut self.proximity_events,
                &self.objects,
                h1,
                h2,
                false,
            );
            proof {
                self.lemma_np_valid_after_interaction(h1, h2);
                let taken = stopped@.take(i2 as int + 1);
                assert(taken.drop_last() =~= stopped@.take(i2 as int));
                assert(taken.last() == stopped@[i2 as int]);
                assert(np_before.handle_interaction_post(
                    self.narrow_phase,
                    ce_before,
                    self.contact_events@,
                    pe_before,
                    self.proximity_events@,
                    objs0,
                    bp1.data_of(taken.last().0),
                    bp1.data_of(taken.last().1),
                    false,
                ));
                assert(reports_processed(
                    npa,
                    self.narrow_phase,
                    cea,
                    self.contact_events@,
                    pea,
                    self.proximity_events@,
                    objs0,
                    bp1,
                    taken,
                    false,
                ));
            }
            i2 += 1;
        }
        proof {
            assert(stopped@.take(n_t as int) =~= stopped@);
        }
        let ghost np1 = self.narrow_phase;
        let ghost ce1 = self.contact_events@;
        let ghost pe1 = self.proximity_events@;
        self.narrow_phase.update(
            &self.objects,
            &mut self.contact_events,
            &mut self.proximity_events,
            self.timestamp,
        );
        proof {
            assert(np_entries_valid(self.narrow_phase, self.objects)) by {
                assert forall|j: int|
                    0 <= j < self.narrow_phase.contact_entries().len() implies self.objects.has(
                    (#[trigger] self.narrow_phase.contact_entries()[j]).0.0,
                ) && self.objects.has(self.narrow_phase.contact_entries()[j].0.1)
                    && self.objects.at(
                    self.narrow_phase.contact_entries()[j].0.0,
                ).spec_query_type() is Contacts && self.objects.at(
                    self.narrow_phase.contact_entries()[j].0.1,
                ).spec_query_type() is Contacts by {
                    assert(self.narrow_phase.contact_entries()[j].0 == np1.contact_entries()[j].0);
                }
                assert forall|j: int|
                    0 <= j < self.narrow_phase.proximity_entries().len() implies self.objects.has(
                    (#[trigger] self.narrow_phase.proximity_entries()[j]).0.0,
                ) && self.objects.has(self.narrow_phase.proximity_entries()[j].0.1) by {
                    assert(self.narrow_phase.proximity_entries()[j].0
                        == np1.proximity_entries()[j].0);
                }
            }
        }
        self.timestamp = self.timestamp + 1;
        proof {
            assert(reports_processed(
                np0,
                npa,
                Seq::<ContactEvent>::empty(),
                cea,
                Seq::<ProximityEvent>::empty(),
                pea,
                objs0,
                bp1,
                started@,
                true,
            ));
            assert(reports_processed(
                npa,
                np1,
                cea,
                ce1,
                pea,
                pe1,
                objs0,
                bp1,
                stopped@,
                false,
            ));
            assert(old(self).tick_post(
                *self,
                started@,
                stopped@,
                npa,
                cea,
                pea,
                np1,
                ce1,
                pe1,
            ));
        }
    }

    /// After one `handle_interaction` call on live, distinct handles, the
    /// narrow-phase entries still name live objects with fitting query types.
    proof fn lemma_np_valid_after_interaction(self, h1: u32, h2: u32)
        requires
            self.narrow_phase.wf(),
            self.objects.has(h1),
            self.objects.has(h2),
            exists|pre: DefaultNarrowPhase<DefaultContactDispatcher, DefaultProximityDispatcher>,
                ce0: Seq<ContactEvent>, ce1: Seq<ContactEvent>, pe0: Seq<ProximityEvent>, pe1: Seq<
                ProximityEvent,
            >, started: bool|
                np_entries_valid(pre, self.objects) && #[trigger] pre.handle_interaction_post(
                    self.narrow_phase,
                    ce0,
                    ce1,
                    pe0,
                    pe1,
                    self.objects,
                    h1,
                    h2,
                    started,
                ),
        ensures
            np_entries_valid(self.narrow_phase, self.objects),
    {
        let (pre, ce0, ce1, pe0, pe1, started) = choose|
            pre: DefaultNarrowPhase<DefaultContactDispatcher, DefaultProximityDispatcher>,
            ce0: Seq<ContactEvent>,
            ce1: Seq<ContactEvent>,
            pe0: Seq<ProximityEvent>,
            pe1: Seq<ProximityEvent>,
            started: bool,
        |
            np_entries_valid(pre, self.objects) && #[trigger] pre.handle_interaction_post(
                self.narrow_phase,
                ce0,
                ce1,
                pe0,
                pe1,
                self.objects,
                h1,
                h2,
                started,
            );
        let k = crate::narrow_phase::spec_sorted_pair(h1, h2);
        assert forall|j: int|
            0 <= j < self.narrow_phase.contact_entries().len() implies self.objects.has(
            (#[trigger] self.narrow_phase.contact_entries()[j]).0.0,
        ) && self.objects.has(self.narrow_phase.contact_entries()[j].0.1) && self.objects.at(
            self.narrow_phase.contact_entries()[j].0.0,
        ).spec_query_type() is Contacts && self.objects.at(
            self.narrow_phase.contact_entries()[j].0.1,
        ).spec_query_type() is Contacts by {
            let s = self.narrow_phase.contact_entries();
            let p = pre.contact_entries();
            if s == p {
            } else if s.len() == p.len() + 1 && s.drop_last() == p {
                if j < p.len() {
                    assert(s[j] == p[j]);
                } else {
                    assert(s[j] == s.last());
                }
            } else {
                let i0 = choose|i0: int|
                    0 <= i0 < p.len() && (#[trigger] p[i0]).0 == k && s == p.remove(i0);
                if j < i0 {
                    assert(s[j] == p[j]);
                } else {
                    assert(s[j] == p[j + 1]);
                }
            }
        }
        assert forall|j: int|
            0 <= j < self.narrow_phase.proximity_entries().len() implies self.objects.has(
            (#[trigger] self.narrow_phase.proximity_entries()[j]).0.0,
        ) && self.objects.has(self.narrow_phase.proximity_entries()[j].0.1) by {
            let s = self.narrow_phase.proximity_entries();
            let p = pre.proximity_entries();
            if s == p {
            } else if s.len() == p.len() + 1 && s.drop_last() == p {
                if j < p.len() {
                    assert(s[j] == p[j]);
                } else {
                    assert(s[j] == s.last());
                }
            } else {
                let i0 = choose|i0: int|
                    0 <= i0 < p.len() && (#[trigger] p[i0]).0 == k && s == p.remove(i0);
                if j < i0 {
                    assert(s[j] == p[j]);
                } else {
                    assert(s[j] == p[j + 1]);
                }
            }
        }
    }

    /// The queued contact events.
    pub fn contact_events(&self) -> (r: &ContactEvents)
        ensures
            r@ == self.spec_contact_events(),
    {
        &self.contact_events
    }

    /// The queued proximity events.
    pub fn proximity_events(&self) -> (r: &ProximityEvents)
        ensures
            r@ == self.spec_proximity_events(),
    {
        &self.proximity_events
    }

    /// The broad phase, for overlap queries and interference counts.
    pub fn broad_phase(&self) -> (r: &DbvtBroadPhase)
        ensures
            *r == self.spec_broad_phase(),
    {
        &self.broad_phase
    }

    /// The narrow phase, for walking the current contact and proximity pairs.
    pub fn narrow_phase(&self) -> (r: &DefaultNarrowPhase<
        DefaultContactDispatcher,
        DefaultProximityDispatcher,
    >)
        ensures
            *r == self.spec_narrow_phase(),
    {
        &self.narrow_phase
    }

    /// The handles of the objects whose loose bounding volume overlaps `bv`.
    pub fn interferences_with_aabb(&self, bv: &Aabb) -> (r: Vec<u32>)
        requires
            self.wf(),
        ensures
            forall|h: u32|
                #[trigger] r@.contains(h) <==> exists|id: u32|
                    self.spec_broad_phase().is_active(id) && self.spec_broad_phase().has_leaf(id)
                        && aabb_overlaps(#[trigger] self.spec_broad_phase().loose_bv(id), *bv)
                        && self.spec_broad_phase().data_of(id) == h,
    {
        let r = self.broad_phase.interferences_with_bounding_volume(bv);
        proof {
            let bp = self.spec_broad_phase();
            assert forall|h: u32| #[trigger] r@.contains(h) implies exists|id: u32|
                bp.is_active(id) && bp.has_leaf(id) && aabb_overlaps(
                    #[trigger] bp.loose_bv(id),
                    *bv,
                ) && bp.data_of(id) == h by {
                let id = choose|id: u32|
                    self.broad_phase.is_active(id) && self.broad_phase.has_leaf(id)
                        && aabb_overlaps(#[trigger] self.broad_phase.loose_bv(id), *bv)
                        && self.broad_phase.data_of(id) == h;
                assert(bp.is_active(id) && bp.has_leaf(id) && aabb_overlaps(bp.loose_bv(id), *bv)
                    && bp.data_of(id) == h);
            }
            assert forall|h: u32|
                (exists|id: u32|
                    bp.is_active(id) && bp.has_leaf(id) && aabb_overlaps(
                        #[trigger] bp.loose_bv(id),
                        *bv,
                    ) && bp.data_of(id) == h) implies #[trigger] r@.contains(h) by {
                let id = choose|id: u32|
                    bp.is_active(id) && bp.has_leaf(id) && aabb_overlaps(
                        #[trigger] bp.loose_bv(id),
                        *bv,
                    ) && bp.data_of(id) == h;
                assert(self.broad_phase.is_active(id) && self.broad_phase.has_leaf(id)
                    && aabb_overlaps(self.broad_phase.loose_bv(id), *bv)
                    && self.broad_phase.data_of(id) == h);
            }
        }
        r
    }

    /// The number of object slots ever allocated, live or reusable.
    pub fn num_object_slots(&self) -> (r: usize)
        ensures
            r == self.spec_objects().spec_num_slots(),
    {
        self.objects.num_slots()
    }

    /// The handles of the objects whose loose bounding volume contains the
    /// point `p`: the degenerate-box case of the volume query.
    pub fn interferences_with_point(&self, p: &Vect) -> (r: Vec<u32>)
        requires
            self.wf(),
        ensures
            forall|h: u32|
                #[trigger] r@.contains(h) <==> exists|id: u32|
                    self.spec_broad_phase().is_active(id) && self.spec_broad_phase().has_leaf(id)
                        && aabb_overlaps(
                        #[trigger] self.spec_broad_phase().loose_bv(id),
                        Aabb { mins: *p, maxs: *p },
                    ) && self.spec_broad_phase().data_of(id) == h,
    {
        let bv = Aabb::new(*p, *p);
        self.interferences_with_aabb(&bv)
    }

    /// A reference to the live object named `h`.
    pub fn collision_object(&self, h: u32) -> (r: &CollisionObject<T>)
        requires
            self.wf(),
            self.spec_objects().has(h),
        ensures
            *r == self.spec_objects().at(h),
    {
        self.objects.get(h)
    }
}

} // verus!
