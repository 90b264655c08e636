//! Lattice points of the plane, other than the origin, enumerated batch by
//! batch: each batch holds every point at the next smallest squared distance
//! from the origin.

pub mod generator;
pub mod orbit;

pub use generator::ListNearPoints2D;
