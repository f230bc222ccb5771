//! The rules by which a sphere and a triangle accept or reject a ray.
//!
//! The quantities that the rules read are worked out elsewhere, in floating
//! point, and come here as order keys.
use vstd::prelude::*;
use crate::key::{less, ONE, ZERO};

verus! {

/// The key of one millionth: the least determinant and the least ray
/// parameter that a triangle accepts.
pub const EPSILON: i32 = 0x3586_37bd;

/// What [`sphere_hit`] returns.
pub open spec fn spec_sphere_hit(discriminant: i32, root_one: i32, root_two: i32) -> Option<i32> {
    if less(discriminant, ZERO) {
        None
    } else if less(ONE, root_one) {
        Some(root_one)
    } else if less(ONE, root_two) {
        Some(root_two)
    } else {
        None
    }
}

/// What [`triangle_hit`] returns.
pub open spec fn spec_triangle_hit(det: i32, u: i32, v: i32, u_plus_v: i32, t: i32) -> Option<i32> {
    if less(det, EPSILON) {
        None
    } else if less(u, ZERO) || less(ONE, u) {
        None
    } else if less(v, ZERO) || less(ONE, u_plus_v) {
        None
    } else if less(t, EPSILON) {
        None
    } else {
        Some(t)
    }
}

/// The ray parameter at which a ray meets a sphere, if it does.
///
/// The ray meets the sphere where `|O + tD - C|^2 = r^2`. `discriminant` is
/// the discriminant of that quadratic in `t`, `root_one` its smaller root
/// and `root_two` its larger one. There is no hit if the discriminant is
/// below zero. Otherwise the hit is at the smaller root if that exceeds one,
/// else at the larger root if that exceeds one, and else there is none: a
/// ray starts at parameter one, and what it meets at or before that is the
/// surface it left.
pub fn sphere_hit(discriminant: i32, root_one: i32, root_two: i32) -> (t: Option<i32>)
    ensures
        t == spec_sphere_hit(discriminant, root_one, root_two),
        t matches Some(k) ==> less(ONE, k) && (k == root_one || k == root_two),
{
    if less(discriminant, ZERO) {
        None
    } else if less(ONE, root_one) {
        Some(root_one)
    } else if less(ONE, root_two) {
        Some(root_two)
    } else {
        None
    }
}

/// The ray parameter at which a ray meets a triangle, if it does: the
/// acceptance rules of the Moeller-Trumbore test.
///
/// With the edges `e1 = v1 - v0` and `e2 = v2 - v0`, `det` is
/// `-direction . (e1 x e2)`, `u` and `v` are the barycentric coordinates of
/// the point where the ray meets the plane of the triangle, `u_plus_v` is
/// their sum and `t` is the ray parameter of that point. The ray is rejected
/// if `det` is below [`EPSILON`], which leaves out rays that come from
/// behind and rays that run along the plane; if `u` is below zero or above
/// one; if `v` is below zero or `u_plus_v` above one; and if `t` is below
/// [`EPSILON`]. Otherwise the hit is at `t`.
pub fn triangle_hit(det: i32, u: i32, v: i32, u_plus_v: i32, t: i32) -> (hit: Option<i32>)
    ensures
        hit == spec_triangle_hit(det, u, v, u_plus_v, t),
        hit matches Some(k) ==> k == t && !less(t, EPSILON) && !less(det, EPSILON),
{
    if less(det, EPSILON) {
        return None;
    }
    if less(u, ZERO) || less(ONE, u) {
        return None;
    }
    if less(v, ZERO) || less(ONE, u_plus_v) {
        return None;
    }
    if less(t, EPSILON) {
        None
    } else {
        Some(t)
    }
}

} // verus!
