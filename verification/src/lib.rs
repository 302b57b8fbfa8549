//! An exact-arithmetic ray-geometry kernel.
//!
//! The crate provides the acceleration and intersection core of a ray
//! tracer: axis-aligned bounding boxes with the slab test, ray-primitive
//! intersection for spheres, triangles and planes, a bounding volume
//! hierarchy built by median split, and a scene aggregate.  Coordinates are
//! fixed-point integers and ray parameters are exact integer fractions, so
//! every geometric predicate is decided exactly and every function carries a
//! machine-checked contract.

pub mod frac;
pub mod vec3;
pub mod ray;
pub mod aabb;
pub mod hittable;
pub mod sphere;
pub mod plane;
pub mod triangle;
pub mod bvh;
pub mod light;
pub mod scene;
pub mod mesh;
