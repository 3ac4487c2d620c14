//! Bounding structures and traversal logic of a Monte Carlo ray tracer.
//!
//! Coordinates enter this library as *order keys*: integers whose order is
//! the order of the real coordinates they stand for (the caller maps each
//! floating-point value through a map that keeps the order and gives equal
//! values equal keys). Everything
//! decided here (interval merges, box unions, containment, axis choice,
//! centroid ordering, closest-hit selection, pixel layout) depends on that
//! order alone, so it is exact on keys. Arithmetic on the coordinates
//! themselves (slab tests, sphere roots, shading) stays with the caller and
//! reaches the logic through closures.
pub mod interval;
pub mod aabb;
pub mod hittable;
pub mod hittable_list;
pub mod bvh;
pub mod frame;
pub mod path;
pub mod sphere;
