//! Core of a 2D/3D collision-detection pipeline on fixed-point coordinates.
//!
//! The library maintains a world of geometric objects, incrementally discovers
//! which pairs of objects may interact, and reports contact and proximity
//! events as objects move.  Geometry is carried on integer (fixed-point)
//! coordinates so that every statement about it is exact: callers pick the
//! unit (for instance one thousandth of a scene unit) and convert at the rim.

pub mod bounding_volume;
pub mod broad_phase;
pub mod events;
pub mod inspection;
pub mod math;
pub mod narrow_phase;
pub mod partitioning;
pub mod query;
pub mod shape;
pub mod world;
