//! Axis-aligned bounding boxes and bounding spheres.

use vstd::prelude::*;
use crate::math::{Vect, bounded, MAX_COORD};

verus! {

/// Bound kept by every bounding volume the pipeline stores: a tight volume of
/// an in-range shape at an in-range position, loosened by an in-range query
/// limit and again by an in-range margin, stays within `4 * MAX_COORD`.
pub const BV_BOUND: i64 = 0x40_0000;

/// An axis-aligned bounding box given by its two extreme corners.
#[derive(Clone, Copy, PartialEq, Eq, Structural, Debug)]
pub struct Aabb {
    pub mins: Vect,
    pub maxs: Vect,
}

/// The box is non-empty: each minimum lies at or below the matching maximum.
pub open spec fn aabb_wf(a: Aabb) -> bool {
    &&& a.mins.x <= a.maxs.x
    &&& a.mins.y <= a.maxs.y
    &&& a.mins.z <= a.maxs.z
}

/// Both corners lie within `[-b, b]` on every axis.
pub open spec fn aabb_bounded(a: Aabb, b: int) -> bool {
    &&& bounded(a.mins, b)
    &&& bounded(a.maxs, b)
}

/// The closed boxes `a` and `b` share at least one point.
pub open spec fn aabb_overlaps(a: Aabb, b: Aabb) -> bool {
    &&& a.mins.x <= b.maxs.x && b.mins.x <= a.maxs.x
    &&& a.mins.y <= b.maxs.y && b.mins.y <= a.maxs.y
    &&& a.mins.z <= b.maxs.z && b.mins.z <= a.maxs.z
}

/// The box `inner` lies entirely within the box `outer`.
pub open spec fn aabb_contains(outer: Aabb, inner: Aabb) -> bool {
    &&& outer.mins.x <= inner.mins.x && inner.maxs.x <= outer.maxs.x
    &&& outer.mins.y <= inner.mins.y && inner.maxs.y <= outer.maxs.y
    &&& outer.mins.z <= inner.mins.z && inner.maxs.z <= outer.maxs.z
}

/// The smallest box enclosing `a` and `b`.
pub open spec fn aabb_merged(a: Aabb, b: Aabb) -> Aabb {
    Aabb {
        mins: Vect {
            x: if a.mins.x <= b.mins.x { a.mins.x } else { b.mins.x },
            y: if a.mins.y <= b.mins.y { a.mins.y } else { b.mins.y },
            z: if a.mins.z <= b.mins.z { a.mins.z } else { b.mins.z },
        },
        maxs: Vect {
            x: if a.maxs.x >= b.maxs.x { a.maxs.x } else { b.maxs.x },
            y: if a.maxs.y >= b.maxs.y { a.maxs.y } else { b.maxs.y },
            z: if a.maxs.z >= b.maxs.z { a.maxs.z } else { b.maxs.z },
        },
    }
}

/// The box `a` grown by `margin` on every side.
pub open spec fn aabb_loosened(a: Aabb, margin: int) -> Aabb {
    Aabb {
        mins: Vect {
            x: (a.mins.x - margin) as i64,
            y: (a.mins.y - margin) as i64,
            z: (a.mins.z - margin) as i64,
        },
        maxs: Vect {
            x: (a.maxs.x + margin) as i64,
            y: (a.maxs.y + margin) as i64,
            z: (a.maxs.z + margin) as i64,
        },
    }
}

/// Containment is transitive, and a box overlapping `inner` overlaps
/// anything containing `inner`; both follow from the corner inequalities.
pub proof fn lemma_contains_overlaps(outer: Aabb, inner: Aabb, q: Aabb)
    requires
        aabb_contains(outer, inner),
        aabb_overlaps(inner, q),
    ensures
        aabb_overlaps(outer, q),
{
}

impl Aabb {
    /// Builds the box with the given corners.
    pub fn new(mins: Vect, maxs: Vect) -> (r: Aabb)
        requires
            aabb_wf(Aabb { mins, maxs }),
        ensures
            r == (Aabb { mins, maxs }),
    {
        Aabb { mins, maxs }
    }

    /// The lowest corner.
    pub fn mins(&self) -> (r: Vect)
        ensures
            r == self.mins,
    {
        self.mins
    }

    /// The highest corner.
    pub fn maxs(&self) -> (r: Vect)
        ensures
            r == self.maxs,
    {
        self.maxs
    }

    /// Whether the two closed boxes share a point.
    pub fn intersects(&self, o: &Aabb) -> (r: bool)
        ensures
            r == aabb_overlaps(*self, *o),
    {
        self.mins.x <= o.maxs.x && o.mins.x <= self.maxs.x && self.mins.y <= o.maxs.y
            && o.mins.y <= self.maxs.y && self.mins.z <= o.maxs.z && o.mins.z <= self.maxs.z
    }

    /// Whether `o` lies entirely within `self`.
    pub fn contains(&self, o: &Aabb) -> (r: bool)
        ensures
            r == aabb_contains(*self, *o),
    {
        self.mins.x <= o.mins.x && o.maxs.x <= self.maxs.x && self.mins.y <= o.mins.y
            && o.maxs.y <= self.maxs.y && self.mins.z <= o.mins.z && o.maxs.z <= self.maxs.z
    }

    /// The smallest box enclosing `self` and `o`.
    pub fn merged(&self, o: &Aabb) -> (r: Aabb)
        ensures
            r == aabb_merged(*self, *o),
            aabb_contains(r, *self),
            aabb_contains(r, *o),
    {
        Aabb {
            mins: Vect {
                x: if self.mins.x <= o.mins.x { self.mins.x } else { o.mins.x },
                y: if self.mins.y <= o.mins.y { self.mins.y } else { o.mins.y },
                z: if self.mins.z <= o.mins.z { self.mins.z } else { o.mins.z },
            },
            maxs: Vect {
                x: if self.maxs.x >= o.maxs.x { self.maxs.x } else { o.maxs.x },
                y: if self.maxs.y >= o.maxs.y { self.maxs.y } else { o.maxs.y },
                z: if self.maxs.z >= o.maxs.z { self.maxs.z } else { o.maxs.z },
            },
        }
    }

    /// `self` grown by `margin` on every side.
    pub fn loosened(&self, margin: i64) -> (r: Aabb)
        requires
            0 <= margin <= MAX_COORD,
            aabb_bounded(*self, 3 * MAX_COORD as int),
        ensures
            r == aabb_loosened(*self, margin as int),
            aabb_contains(r, *self),
            aabb_bounded(r, BV_BOUND as int),
    {
        Aabb {
            mins: Vect {
                x: self.mins.x - margin,
                y: self.mins.y - margin,
                z: self.mins.z - margin,
            },
            maxs: Vect {
                x: self.maxs.x + margin,
                y: self.maxs.y + margin,
                z: self.maxs.z + margin,
            },
        }
    }

    /// A deterministic size measure used by the tree's descent heuristic:
    /// twice the surface area of the box (its area in a flat scene).
    pub fn size_measure(&self) -> (r: i64)
        requires
            aabb_wf(*self),
            aabb_bounded(*self, BV_BOUND as int),
        ensures
            r == 2 * ((self.maxs.x - self.mins.x) * (self.maxs.y - self.mins.y) + (self.maxs.y
                - self.mins.y) * (self.maxs.z - self.mins.z) + (self.maxs.z - self.mins.z) * (
            self.maxs.x - self.mins.x)),
            0 <= r <= 24 * (BV_BOUND as int) * (BV_BOUND as int),
    {
        let ex: i64 = self.maxs.x - self.mins.x;
        let ey: i64 = self.maxs.y - self.mins.y;
        let ez: i64 = self.maxs.z - self.mins.z;
        proof {
            crate::math::lemma_mul_bound(ex as int, ey as int, 2 * BV_BOUND as int, 2 * BV_BOUND as int);
            crate::math::lemma_mul_bound(ey as int, ez as int, 2 * BV_BOUND as int, 2 * BV_BOUND as int);
            crate::math::lemma_mul_bound(ez as int, ex as int, 2 * BV_BOUND as int, 2 * BV_BOUND as int);
            assert(ex * ey >= 0) by (nonlinear_arith)
                requires ex >= 0, ey >= 0;
            assert(ey * ez >= 0) by (nonlinear_arith)
                requires ey >= 0, ez >= 0;
            assert(ez * ex >= 0) by (nonlinear_arith)
                requires ez >= 0, ex >= 0;
        }
        2 * (ex * ey + ey * ez + ez * ex)
    }
}

/// A bounding sphere, stored with its squared radius so the representation
/// stays exact on integer coordinates.
#[derive(Clone, Copy, PartialEq, Eq, Structural, Debug)]
pub struct BoundingSphere {
    pub center: Vect,
    pub radius_sq: i64,
}

impl BoundingSphere {
    /// Builds the sphere with the given center and squared radius.
    pub fn new(center: Vect, radius_sq: i64) -> (r: BoundingSphere)
        requires
            radius_sq >= 0,
        ensures
            r == (BoundingSphere { center, radius_sq }),
    {
        BoundingSphere { center, radius_sq }
    }

    /// The sphere's center.
    pub fn center(&self) -> (r: Vect)
        ensures
            r == self.center,
    {
        self.center
    }

    /// The sphere's squared radius.
    pub fn radius_sq(&self) -> (r: i64)
        ensures
            r == self.radius_sq,
    {
        self.radius_sq
    }
}

} // verus!
