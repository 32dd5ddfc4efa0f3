//! A bounding volume hierarchy over exact integer geometry.
//!
//! The hierarchy answers two questions about a ray and a fixed set of
//! primitives: which primitive does the ray hit first, and does it hit
//! any at all. It is built once, by the binned surface-area heuristic,
//! into a flat array of nodes, and is read-only from then on.
//!
//! Coordinates are integers on a grid and distances along a ray are
//! fractions, so that every comparison is exact: a query gives exactly
//! what a scan over all primitives gives, and the proofs say so.

pub mod aabb;
pub mod aggregate;
pub mod bvh;
pub mod cuboid;
pub mod geometry;
pub mod mesh;
pub mod obj;
pub mod ply;
pub mod ratio;
pub mod ray;
pub mod sah;
pub mod texture;
pub mod vec3;

pub use crate::aabb::AABB;
pub use crate::aggregate::BoundingBox;
pub use crate::aggregate::GeometryList;
pub use crate::aggregate::Object;
pub use crate::bvh::AABBTree;
pub use crate::bvh::HitCost;
pub use crate::bvh::Node;
pub use crate::bvh::Partition;
pub use crate::cuboid::Cuboid;
pub use crate::cuboid::UnitCuboid;
pub use crate::geometry::Geometry;
pub use crate::geometry::HitResult;
pub use crate::ratio::Ratio;
pub use crate::ray::Ray;
pub use crate::vec3::Vec3;
