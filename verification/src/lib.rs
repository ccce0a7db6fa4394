//! Exact planar and spatial triangle geometry: a rational scalar type, points,
//! vectors and triangles over it, a Delaunay triangulation of point sets in the
//! plane, and the assembly of surface meshes from it.

pub mod limbs;
pub mod integer;
pub mod scalar;
mod order;
pub mod binary;
pub mod vector;
pub mod root;
pub mod point;
pub mod triangle;
pub mod plane;
pub mod identities;
pub mod circle;
pub mod aabb;
pub mod surface;
mod lattice;
pub mod sweep;
pub mod flip;
pub mod delaunay;
pub mod mesh;
pub mod render;

pub use crate::aabb::Aabb;
pub use crate::point::Point;
pub use crate::scalar::Scalar;
pub use crate::triangle::{Triangle, Winding};
pub use crate::vector::Vector;
