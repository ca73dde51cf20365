//! Batch ray-sphere intersection over a structure-of-arrays sphere store.
//!
//! Geometry lives on a fixed-point integer grid: a coordinate of one world
//! unit is stored as `SCALE`. All kernels compute exactly on that grid, so
//! the scalar kernel and the four-lane kernel can be proved to agree.

pub mod math;
pub mod collision;

pub use collision::{ray, Ray, RayHit, Sphere, SpheresSoA, sphere, MAX_SPHERES};
pub use math::{reflect, Vec3, vec3, SCALE, COORD_MAX, T_BOUND};
