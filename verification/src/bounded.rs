//! Surfaces as the tree takes them: each with its box.
use vstd::prelude::*;
use crate::aabb::{AABB, Point3};

verus! {

/// A surface together with its box and the midpoint of that box, both worked
/// out before the tree is built. The tree reads the box and the midpoint
/// and hands the surface to the test of the ray; it does not look into the
/// surface, nor hold the midpoint against the box.
#[derive(Debug)]
pub struct Bounded<T> {
    pub shape: T,
    pub aabb: AABB,
    pub midpoint: Point3,
}

/// The boxes of the surfaces, by index.
pub open spec fn boxes<T>(surfaces: Seq<Bounded<T>>) -> Seq<AABB> {
    Seq::new(surfaces.len(), |i: int| surfaces[i].aabb)
}

/// The midpoints of the surfaces, by index.
pub open spec fn midpoints<T>(surfaces: Seq<Bounded<T>>) -> Seq<Point3> {
    Seq::new(surfaces.len(), |i: int| surfaces[i].midpoint)
}

} // verus!
