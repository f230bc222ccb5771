//! The decisions that shading a hit takes: when a ray is followed no
//! further, when a light reaches a surface, and what a highlight starts from.
//!
//! The quantities that the decisions read are worked out elsewhere, in
//! floating point, and come here as order keys.
use vstd::prelude::*;
use crate::key::{less, ZERO};

verus! {

/// What [`specular_base`] returns.
pub open spec fn spec_specular_base(v_dot_r: i32) -> i32 {
    if less(ZERO, v_dot_r) {
        v_dot_r
    } else {
        ZERO
    }
}

/// The depth at which the rays that leave a hit are followed, for a ray
/// that is followed at `depth`: one less. At depth zero a ray is not
/// followed at all: it brings back no light, and there is no next depth.
pub fn secondary_depth(depth: usize) -> (next: Option<usize>)
    ensures
        depth == 0 <==> next is None,
        next matches Some(d) ==> d == depth - 1,
{
    if depth == 0 {
        None
    } else {
        Some(depth - 1)
    }
}

/// Whether a surface faces a light: whether `n_dot_l`, the product of the
/// surface normal and the direction to the light, is above zero. Only then
/// is a shadow ray sent toward the light.
pub fn faces_light(n_dot_l: i32) -> (facing: bool)
    ensures
        facing == less(ZERO, n_dot_l),
{
    less(ZERO, n_dot_l)
}

/// Whether a light adds its diffuse and specular share to a hit: the
/// surface faces the light, and the shadow ray toward the light has met
/// nothing.
pub fn light_reaches(n_dot_l: i32, occluded: bool) -> (lit: bool)
    ensures
        lit == (less(ZERO, n_dot_l) && !occluded),
{
    faces_light(n_dot_l) && !occluded
}

/// The number that is raised to the shininess for the highlight:
/// `v_dot_r`, the product of the view direction and the mirrored direction
/// of the light, or zero if that is not above zero.
pub fn specular_base(v_dot_r: i32) -> (base: i32)
    ensures
        base == spec_specular_base(v_dot_r),
        !less(base, ZERO),
{
    if less(ZERO, v_dot_r) {
        v_dot_r
    } else {
        ZERO
    }
}

} // verus!
