//! Fixed-point vectors and rigid motions.
//!
//! Coordinates are `i64` values in a caller-chosen unit.  Working on integers
//! keeps every geometric statement exact; the bounds below leave enough room
//! for the degree-four polynomials the point queries evaluate in `i128`.

use vstd::prelude::*;

verus! {

/// Largest coordinate magnitude accepted for shape and position data.
pub const MAX_COORD: i64 = 0x10_0000;

/// Bound on coordinate differences of two in-range points (with slack).
pub const DIFF_BOUND: i64 = 0x40_0000;

/// Bound under which componentwise sums and differences cannot overflow.
pub const ADD_BOUND: i64 = 0x2000_0000_0000_0000;

/// Bound on the components of a cross product of two difference vectors,
/// and the largest magnitude `dot` accepts.
pub const CROSS_BOUND: i64 = 0x2000_0000_0000;

/// A vector (or point) of the ambient space.  Two-dimensional scenes set `z`
/// to zero.
#[derive(Clone, Copy, PartialEq, Eq, Structural, Debug)]
pub struct Vect {
    pub x: i64,
    pub y: i64,
    pub z: i64,
}

/// All three components of `v` lie in `[-b, b]`.
pub open spec fn bounded(v: Vect, b: int) -> bool {
    &&& -b <= v.x <= b
    &&& -b <= v.y <= b
    &&& -b <= v.z <= b
}

/// The mathematical dot product of `a` and `b`.
pub open spec fn spec_dot(a: Vect, b: Vect) -> int {
    a.x * b.x + a.y * b.y + a.z * b.z
}

/// The mathematical cross product of `a` and `b`.
pub open spec fn spec_cross(a: Vect, b: Vect) -> (int, int, int) {
    (
        a.y * b.z - a.z * b.y,
        a.z * b.x - a.x * b.z,
        a.x * b.y - a.y * b.x,
    )
}

/// `|a * b| <= ba * bb` whenever `|a| <= ba` and `|b| <= bb`.
pub proof fn lemma_mul_bound(a: int, b: int, ba: int, bb: int)
    requires
        -ba <= a <= ba,
        -bb <= b <= bb,
        0 <= ba,
        0 <= bb,
    ensures
        -(ba * bb) <= a * b <= ba * bb,
{
    assert(-(ba * bb) <= a * b <= ba * bb) by (nonlinear_arith)
        requires
            -ba <= a <= ba,
            -bb <= b <= bb,
            0 <= ba,
            0 <= bb,
    ;
}

impl Vect {
    /// Builds the vector with the given components.
    pub fn new(x: i64, y: i64, z: i64) -> (r: Vect)
        ensures
            r == (Vect { x, y, z }),
    {
        Vect { x, y, z }
    }

    /// The zero vector.
    pub fn zero() -> (r: Vect)
        ensures
            r == (Vect { x: 0i64, y: 0i64, z: 0i64 }),
    {
        Vect { x: 0, y: 0, z: 0 }
    }

    /// Componentwise sum.
    pub fn plus(&self, o: &Vect) -> (r: Vect)
        requires
            bounded(*self, ADD_BOUND as int),
            bounded(*o, ADD_BOUND as int),
        ensures
            r.x == self.x + o.x,
            r.y == self.y + o.y,
            r.z == self.z + o.z,
    {
        Vect { x: self.x + o.x, y: self.y + o.y, z: self.z + o.z }
    }

    /// Componentwise difference.
    pub fn minus(&self, o: &Vect) -> (r: Vect)
        requires
            bounded(*self, ADD_BOUND as int),
            bounded(*o, ADD_BOUND as int),
        ensures
            r.x == self.x - o.x,
            r.y == self.y - o.y,
            r.z == self.z - o.z,
    {
        Vect { x: self.x - o.x, y: self.y - o.y, z: self.z - o.z }
    }

    /// Componentwise negation.
    pub fn neg(&self) -> (r: Vect)
        requires
            bounded(*self, ADD_BOUND as int),
        ensures
            r.x == -self.x,
            r.y == -self.y,
            r.z == -self.z,
    {
        Vect { x: -self.x, y: -self.y, z: -self.z }
    }

    /// Exact dot product, widened to `i128`.
    pub fn dot(&self, o: &Vect) -> (r: i128)
        requires
            bounded(*self, CROSS_BOUND as int),
            bounded(*o, CROSS_BOUND as int),
        ensures
            r == spec_dot(*self, *o),
            -3 * (CROSS_BOUND as int) * (CROSS_BOUND as int) <= r
                <= 3 * (CROSS_BOUND as int) * (CROSS_BOUND as int),
    {
        proof {
            lemma_mul_bound(self.x as int, o.x as int, CROSS_BOUND as int, CROSS_BOUND as int);
            lemma_mul_bound(self.y as int, o.y as int, CROSS_BOUND as int, CROSS_BOUND as int);
            lemma_mul_bound(self.z as int, o.z as int, CROSS_BOUND as int, CROSS_BOUND as int);
        }
        (self.x as i128) * (o.x as i128) + (self.y as i128) * (o.y as i128)
            + (self.z as i128) * (o.z as i128)
    }

    /// Exact cross product of two difference vectors.
    pub fn cross(&self, o: &Vect) -> (r: Vect)
        requires
            bounded(*self, DIFF_BOUND as int),
            bounded(*o, DIFF_BOUND as int),
        ensures
            (r.x as int, r.y as int, r.z as int) == spec_cross(*self, *o),
            bounded(r, CROSS_BOUND as int),
    {
        proof {
            lemma_mul_bound(self.y as int, o.z as int, DIFF_BOUND as int, DIFF_BOUND as int);
            lemma_mul_bound(self.z as int, o.y as int, DIFF_BOUND as int, DIFF_BOUND as int);
            lemma_mul_bound(self.z as int, o.x as int, DIFF_BOUND as int, DIFF_BOUND as int);
            lemma_mul_bound(self.x as int, o.z as int, DIFF_BOUND as int, DIFF_BOUND as int);
            lemma_mul_bound(self.x as int, o.y as int, DIFF_BOUND as int, DIFF_BOUND as int);
            lemma_mul_bound(self.y as int, o.x as int, DIFF_BOUND as int, DIFF_BOUND as int);
        }
        Vect {
            x: self.y * o.z - self.z * o.y,
            y: self.z * o.x - self.x * o.z,
            z: self.x * o.y - self.y * o.x,
        }
    }
}

/// The cross product of two difference vectors of the ambient space.
///
/// Kept as a free function so three-dimensional point queries can call it by
/// the conventional name.
pub fn cross3(a: &Vect, b: &Vect) -> (r: Vect)
    requires
        bounded(*a, DIFF_BOUND as int),
        bounded(*b, DIFF_BOUND as int),
    ensures
        (r.x as int, r.y as int, r.z as int) == spec_cross(*a, *b),
        bounded(r, CROSS_BOUND as int),
{
    a.cross(b)
}

/// `|spec_dot(a, b)| <= 3 * ba * bb` whenever the components of `a` and `b`
/// are bounded by `ba` and `bb`.
pub proof fn lemma_dot_bound(a: Vect, b: Vect, ba: int, bb: int)
    requires
        bounded(a, ba),
        bounded(b, bb),
        0 <= ba,
        0 <= bb,
    ensures
        -3 * (ba * bb) <= spec_dot(a, b) <= 3 * (ba * bb),
{
    lemma_mul_bound(a.x as int, b.x as int, ba, bb);
    lemma_mul_bound(a.y as int, b.y as int, ba, bb);
    lemma_mul_bound(a.z as int, b.z as int, ba, bb);
}

/// A rigid motion of the ambient space, restricted to translations.
///
/// Rotations have irrational matrix entries in general and so live outside
/// the fixed-point model; callers fold a rotation into the shape data before
/// it enters the library.
#[derive(Clone, Copy, PartialEq, Eq, Structural, Debug)]
pub struct Isometry {
    pub translation: Vect,
}

impl Isometry {
    /// The motion translating the origin to `t`.
    pub fn new(t: Vect) -> (r: Isometry)
        ensures
            r.translation == t,
    {
        Isometry { translation: t }
    }

    /// The identity motion.
    pub fn identity() -> (r: Isometry)
        ensures
            r.translation == (Vect { x: 0i64, y: 0i64, z: 0i64 }),
    {
        Isometry { translation: Vect { x: 0, y: 0, z: 0 } }
    }

    /// Applies the motion to a point.
    pub fn transform_point(&self, p: &Vect) -> (r: Vect)
        requires
            bounded(self.translation, ADD_BOUND as int),
            bounded(*p, ADD_BOUND as int),
        ensures
            r.x == p.x + self.translation.x,
            r.y == p.y + self.translation.y,
            r.z == p.z + self.translation.z,
    {
        p.plus(&self.translation)
    }

    /// Applies the inverse motion to a point.
    pub fn inverse_transform_point(&self, p: &Vect) -> (r: Vect)
        requires
            bounded(self.translation, ADD_BOUND as int),
            bounded(*p, ADD_BOUND as int),
        ensures
            r.x == p.x - self.translation.x,
            r.y == p.y - self.translation.y,
            r.z == p.z - self.translation.z,
    {
        p.minus(&self.translation)
    }
}

} // verus!
