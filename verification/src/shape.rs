//! Primitive shapes on fixed-point coordinates.

use vstd::prelude::*;
use crate::math::{Vect, Isometry, bounded, MAX_COORD};
use crate::bounding_volume::{Aabb, BoundingSphere, aabb_wf, aabb_bounded, aabb_merged};
use crate::inspection::{Repr, ReprDesc, ShapeTag, SHAPE_REPR_ID};

verus! {

/// Identifier of the exact type of a ball.
pub const BALL_TYPE_ID: u64 = 1;

/// Identifier of the exact type of a cuboid.
pub const CUBOID_TYPE_ID: u64 = 2;

/// Identifier of the exact type of a cylinder.
pub const CYLINDER_TYPE_ID: u64 = 3;

/// Identifier of the exact type of a tetrahedron.
pub const TETRAHEDRON_TYPE_ID: u64 = 4;

/// A ball centered at the origin of its local frame.
#[derive(Clone, Copy, PartialEq, Eq, Structural, Debug)]
pub struct Ball {
    pub radius: i64,
}

/// A ball's radius is positive and in range.
pub open spec fn ball_wf(b: Ball) -> bool {
    0 < b.radius <= MAX_COORD
}

impl Ball {
    /// Builds the ball of the given radius.
    pub fn new(radius: i64) -> (r: Ball)
        requires
            0 < radius <= MAX_COORD,
        ensures
            r.radius == radius,
            ball_wf(r),
    {
        Ball { radius }
    }

    /// The ball's radius.
    pub fn radius(&self) -> (r: i64)
        ensures
            r == self.radius,
    {
        self.radius
    }
}

/// A rectangular box centered at the origin of its local frame.
#[derive(Clone, Copy, PartialEq, Eq, Structural, Debug)]
pub struct Cuboid {
    pub half_extents: Vect,
}

/// A cuboid's half extents are non-negative and in range.
pub open spec fn cuboid_wf(c: Cuboid) -> bool {
    &&& 0 <= c.half_extents.x <= MAX_COORD
    &&& 0 <= c.half_extents.y <= MAX_COORD
    &&& 0 <= c.half_extents.z <= MAX_COORD
}

impl Cuboid {
    /// Builds the cuboid with the given half extents.
    pub fn new(half_extents: Vect) -> (r: Cuboid)
        requires
            cuboid_wf(Cuboid { half_extents }),
        ensures
            r.half_extents == half_extents,
    {
        Cuboid { half_extents }
    }

    /// The cuboid's half extents.
    pub fn half_extents(&self) -> (r: Vect)
        ensures
            r == self.half_extents,
    {
        self.half_extents
    }
}

/// A cylinder centered at the origin of its local frame, with its principal
/// axis along the `y` axis.
#[derive(Clone, Copy, PartialEq, Eq, Structural, Debug)]
pub struct Cylinder {
    pub half_height: i64,
    pub radius: i64,
}

/// A cylinder's half height and radius are positive and in range.
pub open spec fn cylinder_wf(c: Cylinder) -> bool {
    &&& 0 < c.half_height <= MAX_COORD
    &&& 0 < c.radius <= MAX_COORD
}

impl Cylinder {
    /// Builds the cylinder with the given half height and radius.
    pub fn new(half_height: i64, radius: i64) -> (r: Cylinder)
        requires
            0 < half_height <= MAX_COORD,
            0 < radius <= MAX_COORD,
        ensures
            r.half_height == half_height,
            r.radius == radius,
    {
        Cylinder { half_height, radius }
    }

    /// The cylinder's half height.
    pub fn half_height(&self) -> (r: i64)
        ensures
            r == self.half_height,
    {
        self.half_height
    }

    /// The cylinder's radius.
    pub fn radius(&self) -> (r: i64)
        ensures
            r == self.radius,
    {
        self.radius
    }

    /// The bounding sphere of the cylinder under the motion `m`: it is
    /// centered on the translated origin, and encloses the rim points, whose
    /// squared distance from the center is `radius^2 + half_height^2`.
    pub fn bounding_volume(&self, m: &Isometry) -> (r: BoundingSphere)
        requires
            cylinder_wf(*self),
            bounded(m.translation, MAX_COORD as int),
        ensures
            r.center == m.translation,
            r.radius_sq == self.radius * self.radius + self.half_height * self.half_height,
    {
        let center: Vect = m.transform_point(&Vect::zero());
        proof {
            crate::math::lemma_mul_bound(
                self.radius as int,
                self.radius as int,
                MAX_COORD as int,
                MAX_COORD as int,
            );
            crate::math::lemma_mul_bound(
                self.half_height as int,
                self.half_height as int,
                MAX_COORD as int,
                MAX_COORD as int,
            );
        }
        let radius_sq: i64 = self.radius * self.radius + self.half_height * self.half_height;
        BoundingSphere::new(center, radius_sq)
    }
}

/// A tetrahedron given by its four vertices in its local frame.
#[derive(Clone, Copy, PartialEq, Eq, Structural, Debug)]
pub struct Tetrahedron {
    pub pa: Vect,
    pub pb: Vect,
    pub pc: Vect,
    pub pd: Vect,
}

/// A tetrahedron's vertices are in range.
pub open spec fn tetrahedron_wf(t: Tetrahedron) -> bool {
    &&& bounded(t.pa, MAX_COORD as int)
    &&& bounded(t.pb, MAX_COORD as int)
    &&& bounded(t.pc, MAX_COORD as int)
    &&& bounded(t.pd, MAX_COORD as int)
}

impl Tetrahedron {
    /// Builds the tetrahedron with the given vertices.
    pub fn new(pa: Vect, pb: Vect, pc: Vect, pd: Vect) -> (r: Tetrahedron)
        requires
            tetrahedron_wf(Tetrahedron { pa, pb, pc, pd }),
        ensures
            r == (Tetrahedron { pa, pb, pc, pd }),
    {
        Tetrahedron { pa, pb, pc, pd }
    }

    /// The first vertex.
    pub fn a(&self) -> (r: Vect)
        ensures
            r == self.pa,
    {
        self.pa
    }

    /// The second vertex.
    pub fn b(&self) -> (r: Vect)
        ensures
            r == self.pb,
    {
        self.pb
    }

    /// The third vertex.
    pub fn c(&self) -> (r: Vect)
        ensures
            r == self.pc,
    {
        self.pc
    }

    /// The fourth vertex.
    pub fn d(&self) -> (r: Vect)
        ensures
            r == self.pd,
    {
        self.pd
    }
}

/// A shape usable by the pipeline, tagged by its exact variant.
#[derive(Clone, Copy, PartialEq, Eq, Structural, Debug)]
pub enum Shape {
    Ball(Ball),
    Cuboid(Cuboid),
    Cylinder(Cylinder),
    Tetrahedron(Tetrahedron),
}

/// The shape's data is in range.
pub open spec fn shape_wf(s: Shape) -> bool {
    match s {
        Shape::Ball(b) => ball_wf(b),
        Shape::Cuboid(c) => cuboid_wf(c),
        Shape::Cylinder(c) => cylinder_wf(c),
        Shape::Tetrahedron(t) => tetrahedron_wf(t),
    }
}

/// The axis-aligned bounding box of `s` placed at translation `t`.
pub open spec fn spec_shape_aabb(s: Shape, t: Vect) -> Aabb {
    match s {
        Shape::Ball(b) => Aabb {
            mins: Vect { x: (t.x - b.radius) as i64, y: (t.y - b.radius) as i64, z: (t.z - b.radius) as i64 },
            maxs: Vect { x: (t.x + b.radius) as i64, y: (t.y + b.radius) as i64, z: (t.z + b.radius) as i64 },
        },
        Shape::Cuboid(c) => Aabb {
            mins: Vect {
                x: (t.x - c.half_extents.x) as i64,
                y: (t.y - c.half_extents.y) as i64,
                z: (t.z - c.half_extents.z) as i64,
            },
            maxs: Vect {
                x: (t.x + c.half_extents.x) as i64,
                y: (t.y + c.half_extents.y) as i64,
                z: (t.z + c.half_extents.z) as i64,
            },
        },
        Shape::Cylinder(c) => Aabb {
            mins: Vect { x: (t.x - c.radius) as i64, y: (t.y - c.half_height) as i64, z: (t.z - c.radius) as i64 },
            maxs: Vect { x: (t.x + c.radius) as i64, y: (t.y + c.half_height) as i64, z: (t.z + c.radius) as i64 },
        },
        Shape::Tetrahedron(th) => aabb_merged(
            aabb_merged(
                Aabb { mins: translated(th.pa, t), maxs: translated(th.pa, t) },
                Aabb { mins: translated(th.pb, t), maxs: translated(th.pb, t) },
            ),
            aabb_merged(
                Aabb { mins: translated(th.pc, t), maxs: translated(th.pc, t) },
                Aabb { mins: translated(th.pd, t), maxs: translated(th.pd, t) },
            ),
        ),
    }
}

/// The point `p` moved by the translation `t`.
pub open spec fn translated(p: Vect, t: Vect) -> Vect {
    Vect { x: (p.x + t.x) as i64, y: (p.y + t.y) as i64, z: (p.z + t.z) as i64 }
}

impl Shape {
    /// The variant tag of this shape.
    pub fn tag(&self) -> (r: ShapeTag)
        ensures
            r == self.spec_tag(),
    {
        match self {
            Shape::Ball(_) => ShapeTag::Ball,
            Shape::Cuboid(_) => ShapeTag::Cuboid,
            Shape::Cylinder(_) => ShapeTag::Cylinder,
            Shape::Tetrahedron(_) => ShapeTag::Tetrahedron,
        }
    }

    /// The variant tag of this shape.
    pub open spec fn spec_tag(&self) -> ShapeTag {
        match self {
            Shape::Ball(_) => ShapeTag::Ball,
            Shape::Cuboid(_) => ShapeTag::Cuboid,
            Shape::Cylinder(_) => ShapeTag::Cylinder,
            Shape::Tetrahedron(_) => ShapeTag::Tetrahedron,
        }
    }

    /// The identifier of this shape's exact type.
    pub fn type_id(&self) -> (r: u64)
        ensures
            r == self.spec_type_id(),
    {
        match self {
            Shape::Ball(_) => BALL_TYPE_ID,
            Shape::Cuboid(_) => CUBOID_TYPE_ID,
            Shape::Cylinder(_) => CYLINDER_TYPE_ID,
            Shape::Tetrahedron(_) => TETRAHEDRON_TYPE_ID,
        }
    }

    /// The identifier of this shape's exact type.
    pub open spec fn spec_type_id(&self) -> u64 {
        match self {
            Shape::Ball(_) => BALL_TYPE_ID,
            Shape::Cuboid(_) => CUBOID_TYPE_ID,
            Shape::Cylinder(_) => CYLINDER_TYPE_ID,
            Shape::Tetrahedron(_) => TETRAHEDRON_TYPE_ID,
        }
    }

    /// This shape viewed as a ball, when it is one.
    pub fn as_ball(&self) -> (r: Option<&Ball>)
        ensures
            match r {
                Some(b) => *self == Shape::Ball(*b),
                None => !(self is Ball),
            },
    {
        match self {
            Shape::Ball(b) => Some(b),
            _ => None,
        }
    }

    /// The axis-aligned bounding box of this shape placed at `m`.
    pub fn aabb(&self, m: &Isometry) -> (r: Aabb)
        requires
            shape_wf(*self),
            bounded(m.translation, MAX_COORD as int),
        ensures
            r == spec_shape_aabb(*self, m.translation),
            aabb_wf(r),
            aabb_bounded(r, 2 * MAX_COORD as int),
    {
        let t: Vect = m.translation;
        match self {
            Shape::Ball(b) => Aabb {
                mins: Vect { x: t.x - b.radius, y: t.y - b.radius, z: t.z - b.radius },
                maxs: Vect { x: t.x + b.radius, y: t.y + b.radius, z: t.z + b.radius },
            },
            Shape::Cuboid(c) => Aabb {
                mins: Vect {
                    x: t.x - c.half_extents.x,
                    y: t.y - c.half_extents.y,
                    z: t.z - c.half_extents.z,
                },
                maxs: Vect {
                    x: t.x + c.half_extents.x,
                    y: t.y + c.half_extents.y,
                    z: t.z + c.half_extents.z,
                },
            },
            Shape::Cylinder(c) => Aabb {
                mins: Vect { x: t.x - c.radius, y: t.y - c.half_height, z: t.z - c.radius },
                maxs: Vect { x: t.x + c.radius, y: t.y + c.half_height, z: t.z + c.radius },
            },
            Shape::Tetrahedron(th) => {
                let pa: Vect = th.pa.plus(&t);
                let pb: Vect = th.pb.plus(&t);
                let pc: Vect = th.pc.plus(&t);
                let pd: Vect = th.pd.plus(&t);
                let ab: Aabb = Aabb { mins: pa, maxs: pa }.merged(&Aabb { mins: pb, maxs: pb });
                let cd: Aabb = Aabb { mins: pc, maxs: pc }.merged(&Aabb { mins: pd, maxs: pd });
                ab.merged(&cd)
            },
        }
    }
}

impl Repr for Shape {
    open spec fn repr_desc(&self) -> ReprDesc {
        ReprDesc::spec_new(self.spec_type_id(), SHAPE_REPR_ID, self.spec_tag())
    }

    fn repr(&self) -> (r: ReprDesc) {
        ReprDesc::new(self.type_id(), SHAPE_REPR_ID, self.tag())
    }
}

} // verus!
