//! Runtime inspection of shape representations.
//!
//! Algorithm factories must branch on the exact shape type while the rest of
//! the pipeline only needs a uniform interface.  Instead of a raw trait-object
//! downcast, every shape carries a tag naming its exact variant; a descriptor
//! bundles the tag with stable numeric identifiers.

use vstd::prelude::*;

verus! {

/// Identifier of the uniform shape interface itself.
pub const SHAPE_REPR_ID: u64 = 100;

/// The exact runtime variant of a shape.
#[derive(Clone, Copy, PartialEq, Eq, Structural, Debug)]
pub enum ShapeTag {
    Ball,
    Cuboid,
    Cylinder,
    Tetrahedron,
}

/// Descriptor of one shape's runtime representation: the identifier of its
/// exact type, the identifier of the interface it is viewed through, and the
/// variant tag that replaces a raw vtable pointer.
#[derive(Clone, Copy, PartialEq, Eq, Structural, Debug)]
pub struct ReprDesc {
    type_id: u64,
    repr_id: u64,
    repr: ShapeTag,
}

impl ReprDesc {
    /// The descriptor holding the given identifiers and tag.
    pub closed spec fn spec_new(type_id: u64, repr_id: u64, repr: ShapeTag) -> ReprDesc {
        ReprDesc { type_id, repr_id, repr }
    }

    /// The identifier of this shape's exact type.
    pub closed spec fn spec_type_id(&self) -> u64 {
        self.type_id
    }

    /// The identifier of this shape's representation interface.
    pub closed spec fn spec_repr_id(&self) -> u64 {
        self.repr_id
    }

    /// The variant tag of this shape.
    pub closed spec fn spec_repr(&self) -> ShapeTag {
        self.repr
    }

    /// Creates a new representation descriptor.
    pub fn new(type_id: u64, repr_id: u64, repr: ShapeTag) -> (r: ReprDesc)
        ensures
            r == ReprDesc::spec_new(type_id, repr_id, repr),
            r.spec_type_id() == type_id,
            r.spec_repr_id() == repr_id,
            r.spec_repr() == repr,
    {
        ReprDesc { type_id, repr_id, repr }
    }

    /// Identifier of this shape's exact type.
    pub fn type_id(&self) -> (r: u64)
        ensures
            r == self.spec_type_id(),
    {
        self.type_id
    }

    /// Identifier of this shape's representation interface.
    pub fn repr_id(&self) -> (r: u64)
        ensures
            r == self.spec_repr_id(),
    {
        self.repr_id
    }

    /// This shape's variant tag.
    pub fn repr(&self) -> (r: ShapeTag)
        ensures
            r == self.spec_repr(),
    {
        self.repr
    }
}

/// An object with a unique runtime geometric representation.
pub trait Repr {
    /// The descriptor this object reports.
    spec fn repr_desc(&self) -> ReprDesc;

    /// Gets this object's representation descriptor.
    fn repr(&self) -> (r: ReprDesc)
        ensures
            r == self.repr_desc(),
    ;
}

} // verus!
