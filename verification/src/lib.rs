//! A bounding volume hierarchy for tracing rays through a scene of surfaces,
//! with the rules by which boxes, spheres and triangles accept a ray.
//!
//! The library compares numbers and never computes with them. Coordinates
//! and ray parameters come to it as order keys ([`key`]): integers that are
//! ordered as the numbers are. Whoever uses the library does the arithmetic
//! and hands over its results: the box and the midpoint of each surface and a
//! choice of axis when a tree is built ([`bvh::BVH::new`]); the tests of a ray
//! against a box and against a surface when a tree is walked
//! ([`bvh::BVH::ray_intersect`], [`bvh::BVH::hits_any`]); and the quantities
//! that the rules of [`aabb`], [`surface`] and [`shading`] read.
//!
//! What holds of a tree is stated of [`tree::Tree`], the tree as a
//! mathematical value, which is the view of a [`bvh::BVH`].
pub mod aabb;
pub mod arena;
pub mod bounded;
pub mod bvh;
pub mod key;
pub mod node;
pub mod reorder;
pub mod shading;
pub mod surface;
pub mod tree;
