use bvh_tracer::aabb::{Axis, Point3, AABB};
use bvh_tracer::key::{is_nan, key_from_bits, less, INFINITY, NEG_INFINITY, NEG_ZERO, ONE, ZERO};
use bvh_tracer::shading::{faces_light, light_reaches, secondary_depth, specular_base};
use bvh_tracer::surface::{sphere_hit, triangle_hit, EPSILON};
use glam::Vec3A;

fn key(x: f32) -> i32 {
    key_from_bits(x.to_bits())
}

fn keys(v: Vec3A) -> Point3 {
    Point3 { x: key(v.x), y: key(v.y), z: key(v.z) }
}

fn samples() -> Vec<f32> {
    vec![
        f32::NAN,
        -f32::NAN,
        f32::NEG_INFINITY,
        f32::MIN,
        -16.0,
        -1.0,
        -1.0e-6,
        -f32::MIN_POSITIVE,
        -0.0,
        0.0,
        f32::MIN_POSITIVE,
        1.0e-6,
        0.5,
        1.0,
        1.000_000_1,
        16.0,
        f32::MAX,
        f32::INFINITY,
    ]
}

#[test]
fn named_keys_are_those_of_the_numbers() {
    assert_eq!(ZERO, key(0.0));
    assert_eq!(NEG_ZERO, key(-0.0));
    assert_eq!(ONE, key(1.0));
    assert_eq!(INFINITY, key(f32::INFINITY));
    assert_eq!(NEG_INFINITY, key(f32::NEG_INFINITY));
    assert_eq!(EPSILON, key(1e-6));
}

#[test]
fn less_compares_as_the_numbers_do() {
    for a in samples() {
        for b in samples() {
            assert_eq!(less(key(a), key(b)), a < b, "{} against {}", a, b);
        }
    }
}

#[test]
fn is_nan_tells_the_keys_of_nan() {
    for a in samples() {
        assert_eq!(is_nan(key(a)), a.is_nan(), "{}", a);
    }
    assert!(is_nan(INFINITY + 1));
    assert!(is_nan(NEG_INFINITY - 1));
    assert!(is_nan(i32::MAX));
    assert!(is_nan(i32::MIN));
    assert!(!is_nan(INFINITY));
    assert!(!is_nan(NEG_INFINITY));
}

#[test]
fn the_two_zeros_are_equal() {
    assert!(!less(NEG_ZERO, ZERO));
    assert!(!less(ZERO, NEG_ZERO));
    assert!(less(key(-1.0e-30), NEG_ZERO));
    assert!(less(NEG_ZERO, key(1.0e-30)));
}

/// The axis of greatest extent, by a scan with the numbers themselves.
fn widest(extent: Vec3A) -> usize {
    let mut max = f32::NEG_INFINITY;
    let mut max_i = 0;
    for i in 0..=2 {
        if extent[i] > max {
            max = extent[i];
            max_i = i;
        }
    }
    max_i
}

#[test]
fn max_axis_is_the_axis_of_greatest_extent() {
    assert_eq!(AABB::max_axis(&keys(Vec3A::new(3.0, 2.0, 1.0))), Axis::X);
    assert_eq!(AABB::max_axis(&keys(Vec3A::new(1.0, 3.0, 2.0))), Axis::Y);
    assert_eq!(AABB::max_axis(&keys(Vec3A::new(1.0, 2.0, 3.0))), Axis::Z);
    assert_eq!(AABB::max_axis(&keys(Vec3A::new(-3.0, -2.0, -1.0))), Axis::Z);
    assert_eq!(AABB::max_axis(&keys(Vec3A::new(0.0, 17.0, 16.5))), Axis::Y);
}

#[test]
fn max_axis_takes_the_first_of_equal_extents() {
    assert_eq!(AABB::max_axis(&keys(Vec3A::new(2.0, 2.0, 2.0))), Axis::X);
    assert_eq!(AABB::max_axis(&keys(Vec3A::new(1.0, 2.0, 2.0))), Axis::Y);
    assert_eq!(AABB::max_axis(&keys(Vec3A::new(2.0, 1.0, 2.0))), Axis::X);
    assert_eq!(AABB::max_axis(&keys(Vec3A::new(0.0, 0.0, 0.0))), Axis::X);
    assert_eq!(AABB::max_axis(&keys(Vec3A::new(-0.0, 0.0, 0.0))), Axis::X);
    assert_eq!(AABB::max_axis(&keys(Vec3A::new(0.0, -0.0, 0.0))), Axis::X);
}

#[test]
fn max_axis_passes_over_nan_and_negative_infinity() {
    let ninf = f32::NEG_INFINITY;
    assert_eq!(AABB::max_axis(&keys(Vec3A::new(ninf, ninf, ninf))), Axis::X);
    assert_eq!(AABB::max_axis(&keys(Vec3A::new(ninf, ninf, -5.0))), Axis::Z);
    assert_eq!(AABB::max_axis(&keys(Vec3A::new(f32::NAN, 1.0, 0.0))), Axis::Y);
    assert_eq!(AABB::max_axis(&keys(Vec3A::new(1.0, f32::NAN, 2.0))), Axis::Z);
    assert_eq!(AABB::max_axis(&keys(Vec3A::new(f32::NAN, f32::NAN, f32::NAN))), Axis::X);
}

#[test]
fn max_axis_agrees_with_a_scan_of_the_numbers() {
    let values = samples();
    for &x in &values {
        for &y in &values {
            for &z in &values {
                let extent = Vec3A::new(x, y, z);
                assert_eq!(
                    AABB::max_axis(&keys(extent)).index(),
                    widest(extent),
                    "{:?}",
                    extent
                );
            }
        }
    }
}

fn slab(min: Vec3A, max: Vec3A, origin: Vec3A, direction: Vec3A) -> bool {
    let ta = (min - origin) / direction;
    let tb = (max - origin) / direction;
    AABB::ray_hit(&keys(ta), &keys(tb))
}

#[test]
fn test_aabb_intersection() {
    let min = Vec3A::splat(-1.0);
    let max = Vec3A::splat(1.0);

    assert!(slab(min, max, Vec3A::new(0.0, 0.0, -2.0), Vec3A::Z));
    assert!(!slab(min, max, Vec3A::new(2.0, 0.0, -2.0), Vec3A::Z));
}

#[test]
fn ray_hit_compares_the_last_entry_with_the_first_exit() {
    let p = |x: f32, y: f32, z: f32| keys(Vec3A::new(x, y, z));
    assert!(AABB::ray_hit(&p(1.0, 2.0, 3.0), &p(4.0, 5.0, 6.0)));
    assert!(AABB::ray_hit(&p(4.0, 5.0, 6.0), &p(1.0, 2.0, 3.0)));
    assert!(AABB::ray_hit(&p(4.0, 2.0, 6.0), &p(1.0, 5.0, 3.0)));
    assert!(!AABB::ray_hit(&p(1.0, 2.0, 4.5), &p(4.0, 5.0, 6.0)));
    assert!(!AABB::ray_hit(&p(1.0, 2.0, 4.0), &p(4.0, 5.0, 6.0)));
    assert!(AABB::ray_hit(&p(1.0, 2.0, 3.9), &p(4.0, 5.0, 6.0)));
}

#[test]
fn ray_hit_does_not_leave_out_boxes_behind_the_ray() {
    let min = Vec3A::splat(-1.0);
    let max = Vec3A::splat(1.0);
    assert!(slab(min, max, Vec3A::new(0.0, 0.0, 5.0), Vec3A::Z));
    assert!(slab(min, max, Vec3A::new(0.2, -0.3, 5.0), Vec3A::new(0.01, 0.02, 1.0)));
}

#[test]
fn ray_hit_misses_a_box_without_depth() {
    let min = Vec3A::new(-1.0, 0.0, -1.0);
    let max = Vec3A::new(1.0, 0.0, 1.0);
    assert!(!slab(min, max, Vec3A::new(0.0, 5.0, 0.0), Vec3A::new(0.0, -1.0, 0.0)));
    assert!(!slab(min, max, Vec3A::new(0.0, 5.0, 0.0), Vec3A::new(0.1, -1.0, 0.1)));
}

#[test]
fn ray_hit_misses_with_a_nan() {
    let p = |x: f32, y: f32, z: f32| keys(Vec3A::new(x, y, z));
    assert!(!AABB::ray_hit(&p(f32::NAN, 2.0, 3.0), &p(4.0, 5.0, 6.0)));
    assert!(!AABB::ray_hit(&p(1.0, 2.0, 3.0), &p(4.0, f32::NAN, 6.0)));
    assert!(!AABB::ray_hit(&p(1.0, 2.0, -f32::NAN), &p(4.0, 5.0, 6.0)));
    let min = Vec3A::splat(-1.0);
    let max = Vec3A::splat(1.0);
    assert!(!slab(min, max, Vec3A::new(-1.0, 0.0, -2.0), Vec3A::Z));
    assert!(!slab(min, max, Vec3A::new(0.0, 1.0, -2.0), Vec3A::Z));
}

#[test]
fn ray_hit_takes_the_two_zeros_as_equal() {
    let p = |x: f32, y: f32, z: f32| keys(Vec3A::new(x, y, z));
    assert!(!AABB::ray_hit(&p(-0.0, -5.0, -5.0), &p(0.0, 5.0, 5.0)));
    assert!(!AABB::ray_hit(&p(0.0, -5.0, -5.0), &p(-0.0, 5.0, 5.0)));
}

#[test]
fn around_is_the_least_box_of_three_points() {
    let a = keys(Vec3A::new(6.0, -2.0, 16.0));
    let b = keys(Vec3A::new(-6.0, -2.0, 16.0));
    let c = keys(Vec3A::new(0.0, 5.0, 16.0));
    let aabb = AABB::around(a, b, c);
    assert_eq!(aabb.min, keys(Vec3A::new(-6.0, -2.0, 16.0)));
    assert_eq!(aabb.max, keys(Vec3A::new(6.0, 5.0, 16.0)));
    assert_eq!(AABB::around(c, a, b), aabb);
    assert_eq!(AABB::around(a, a, a), AABB { min: a, max: a });
}

#[test]
fn sphere_hit_takes_the_first_root_beyond_one() {
    assert_eq!(sphere_hit(key(4.0), key(9.0), key(11.0)), Some(key(9.0)));
    assert_eq!(sphere_hit(key(0.0), key(9.0), key(9.0)), Some(key(9.0)));
    assert_eq!(sphere_hit(key(4.0), key(0.5), key(11.0)), Some(key(11.0)));
    assert_eq!(sphere_hit(key(4.0), key(-3.0), key(1.5)), Some(key(1.5)));
    assert_eq!(sphere_hit(key(4.0), key(1.0), key(2.0)), Some(key(2.0)));
}

#[test]
fn sphere_hit_rejects_roots_at_or_before_one() {
    assert_eq!(sphere_hit(key(4.0), key(0.5), key(1.0)), None);
    assert_eq!(sphere_hit(key(4.0), key(-2.0), key(-1.0)), None);
    assert_eq!(sphere_hit(key(4.0), key(0.0), key(0.999_999_9)), None);
}

#[test]
fn sphere_hit_rejects_a_discriminant_below_zero() {
    assert_eq!(sphere_hit(key(-1.0e-6), key(9.0), key(11.0)), None);
    assert_eq!(sphere_hit(key(-4.0), key(f32::NAN), key(f32::NAN)), None);
    assert_eq!(sphere_hit(key(-0.0), key(9.0), key(11.0)), Some(key(9.0)));
}

#[test]
fn sphere_hit_rejects_roots_that_are_nan() {
    assert_eq!(sphere_hit(key(0.0), key(f32::NAN), key(f32::NAN)), None);
    assert_eq!(sphere_hit(key(f32::NAN), key(f32::NAN), key(f32::NAN)), None);
    assert_eq!(sphere_hit(key(f32::NAN), key(f32::NAN), key(5.0)), Some(key(5.0)));
}

#[test]
fn triangle_hit_accepts_a_point_inside() {
    let t = key(16.0);
    assert_eq!(triangle_hit(key(10.0), key(0.25), key(0.25), key(0.5), t), Some(t));
    assert_eq!(triangle_hit(key(1e-6), key(0.0), key(0.0), key(0.0), key(1e-6)), Some(key(1e-6)));
    assert_eq!(triangle_hit(key(10.0), key(1.0), key(0.0), key(1.0), t), Some(t));
    assert_eq!(triangle_hit(key(10.0), key(0.0), key(1.0), key(1.0), t), Some(t));
    assert_eq!(triangle_hit(key(10.0), key(-0.0), key(-0.0), key(-0.0), t), Some(t));
}

#[test]
fn triangle_hit_rejects_each_way() {
    let t = key(16.0);
    // from behind, and along the plane
    assert_eq!(triangle_hit(key(-10.0), key(0.25), key(0.25), key(0.5), t), None);
    assert_eq!(triangle_hit(key(0.0), key(0.25), key(0.25), key(0.5), t), None);
    assert_eq!(triangle_hit(key(0.999e-6), key(0.25), key(0.25), key(0.5), t), None);
    // beside the triangle
    assert_eq!(triangle_hit(key(10.0), key(-0.01), key(0.25), key(0.24), t), None);
    assert_eq!(triangle_hit(key(10.0), key(1.01), key(0.0), key(1.01), t), None);
    assert_eq!(triangle_hit(key(10.0), key(0.25), key(-0.01), key(0.24), t), None);
    assert_eq!(triangle_hit(key(10.0), key(0.75), key(0.5), key(1.25), t), None);
    // at or behind the start of the ray
    assert_eq!(triangle_hit(key(10.0), key(0.25), key(0.25), key(0.5), key(0.0)), None);
    assert_eq!(triangle_hit(key(10.0), key(0.25), key(0.25), key(0.5), key(-3.0)), None);
    assert_eq!(triangle_hit(key(10.0), key(0.25), key(0.25), key(0.5), key(0.999e-6)), None);
}

/// The quantities that the triangle rules read, for the triangle with the
/// corners `v0`, `v1`, `v2` and the ray from `origin` along `direction`.
fn triangle_quantities(
    v0: Vec3A,
    v1: Vec3A,
    v2: Vec3A,
    origin: Vec3A,
    direction: Vec3A,
) -> (f32, f32, f32, f32) {
    let v0v1 = v1 - v0;
    let v0v2 = v2 - v0;
    let plane_vec = v0v1.cross(v0v2);
    let det = -direction.dot(plane_vec);
    let inv_det = 1.0 / det;
    let b = origin - v0;
    let u = inv_det * -direction.dot(b.cross(v0v2));
    let v = inv_det * -direction.dot(v0v1.cross(b));
    let t = inv_det * b.dot(plane_vec);
    (det, u, v, t)
}

fn triangle(v0: Vec3A, v1: Vec3A, v2: Vec3A, origin: Vec3A, direction: Vec3A) -> Option<i32> {
    let (det, u, v, t) = triangle_quantities(v0, v1, v2, origin, direction);
    triangle_hit(key(det), key(u), key(v), key(u + v), key(t))
}

#[test]
fn test_triangle_intersection() {
    let v0 = Vec3A::new(6.0, -2.0, 16.0);
    let v1 = Vec3A::new(-6.0, -2.0, 16.0);
    let v2 = Vec3A::new(0.0, 5.0, 16.0);

    assert!(triangle(v0, v1, v2, Vec3A::ZERO, Vec3A::new(-1.0, 5.0, 16.0).normalize()).is_none());
    assert!(triangle(v0, v1, v2, Vec3A::ZERO, Vec3A::new(0.0, 5.0, 16.0).normalize()).is_some());
}

#[test]
fn a_triangle_is_hit_from_one_side_only() {
    let v0 = Vec3A::new(6.0, -2.0, 16.0);
    let v1 = Vec3A::new(-6.0, -2.0, 16.0);
    let v2 = Vec3A::new(0.0, 5.0, 16.0);
    let front = triangle(v0, v1, v2, Vec3A::ZERO, Vec3A::Z);
    assert_eq!(front, Some(key(16.0)));
    let back = triangle(v0, v1, v2, Vec3A::new(0.0, 0.0, 32.0), -Vec3A::Z);
    assert_eq!(back, None);
    let turned = triangle(v1, v0, v2, Vec3A::new(0.0, 0.0, 32.0), -Vec3A::Z);
    assert_eq!(turned, Some(key(16.0)));
}

/// The quantities that the sphere rules read, for the sphere around `centre`
/// with the radius `radius` and the ray from `origin` along `direction`.
fn sphere_quantities(centre: Vec3A, radius: f32, origin: Vec3A, direction: Vec3A) -> (f32, f32, f32) {
    let a = direction.length_squared();
    let oc = origin - centre;
    let half_b = oc.dot(direction);
    let c = oc.length_squared() - radius * radius;
    let discriminant = half_b * half_b - a * c;
    let root_one = (-half_b - discriminant.sqrt()) / a;
    let root_two = (-half_b + discriminant.sqrt()) / a;
    (discriminant, root_one, root_two)
}

fn sphere(centre: Vec3A, radius: f32, origin: Vec3A, direction: Vec3A) -> Option<i32> {
    let (d, r1, r2) = sphere_quantities(centre, radius, origin, direction);
    sphere_hit(key(d), key(r1), key(r2))
}

#[test]
fn a_ray_at_the_centre_of_a_sphere_hits_at_the_distance_less_the_radius() {
    let hit = sphere(Vec3A::new(0.0, 0.0, 10.0), 1.0, Vec3A::ZERO, Vec3A::Z);
    assert_eq!(hit, Some(key(9.0)));
    let hit = sphere(Vec3A::new(3.0, 0.0, 4.0), 2.0, Vec3A::ZERO, Vec3A::new(0.6, 0.0, 0.8));
    let t = f32::from_bits(bvh_tracer::key::bits_from_key(hit.unwrap()));
    assert!((t - 3.0).abs() < 1e-5, "{}", t);
}

#[test]
fn a_ray_beside_a_sphere_misses() {
    let centre = Vec3A::new(0.0, 0.0, 10.0);
    assert_eq!(sphere(centre, 1.0, Vec3A::new(2.0, 0.0, 0.0), Vec3A::Z), None);
    assert_eq!(sphere(centre, 1.0, Vec3A::new(0.0, -1.001, 0.0), Vec3A::Z), None);
    assert_eq!(sphere(centre, 1.0, Vec3A::new(0.0, -0.999, 0.0), Vec3A::Z).is_some(), true);
}

#[test]
fn a_ray_from_within_a_sphere_hits_the_far_side() {
    let hit = sphere(Vec3A::new(0.0, 0.0, 0.0), 5.0, Vec3A::ZERO, Vec3A::Z);
    assert_eq!(hit, Some(key(5.0)));
}

#[test]
fn a_sphere_within_one_parameter_of_the_start_is_not_hit() {
    let hit = sphere(Vec3A::new(0.0, 0.0, 0.5), 0.25, Vec3A::ZERO, Vec3A::Z);
    assert_eq!(hit, None);
}

#[test]
fn a_ray_without_direction_hits_nothing() {
    assert_eq!(sphere(Vec3A::new(0.0, 0.0, 10.0), 1.0, Vec3A::ZERO, Vec3A::ZERO), None);
    let v0 = Vec3A::new(6.0, -2.0, 16.0);
    let v1 = Vec3A::new(-6.0, -2.0, 16.0);
    let v2 = Vec3A::new(0.0, 5.0, 16.0);
    assert_eq!(triangle(v0, v1, v2, Vec3A::ZERO, Vec3A::ZERO), None);
    assert_eq!(triangle(v0, v0, v2, Vec3A::ZERO, Vec3A::Z), None);
}

#[test]
fn a_ray_at_depth_zero_is_not_followed() {
    assert_eq!(secondary_depth(0), None);
    assert_eq!(secondary_depth(1), Some(0));
    assert_eq!(secondary_depth(10), Some(9));
    assert_eq!(secondary_depth(usize::MAX), Some(usize::MAX - 1));
}

#[test]
fn a_light_reaches_a_surface_that_faces_it_and_is_not_in_shadow() {
    assert!(light_reaches(key(0.5), false));
    assert!(light_reaches(key(1.0e-30), false));
    assert!(!light_reaches(key(0.5), true));
    assert!(!light_reaches(key(0.0), false));
    assert!(!light_reaches(key(-0.0), false));
    assert!(!light_reaches(key(-0.5), false));
    assert!(!light_reaches(key(-0.5), true));
    assert!(!light_reaches(key(f32::NAN), false));
}

#[test]
fn the_shading_decisions_compare_as_the_numbers_do() {
    for d in samples() {
        assert_eq!(faces_light(key(d)), d > 0.0, "{}", d);
        for occluded in [false, true] {
            assert_eq!(light_reaches(key(d), occluded), d > 0.0 && !occluded, "{}", d);
        }
        let base = f32::from_bits(bvh_tracer::key::bits_from_key(specular_base(key(d))));
        assert_eq!(base, d.max(0.0), "{}", d);
    }
}

#[test]
fn the_highlight_starts_from_no_less_than_zero() {
    assert_eq!(specular_base(key(0.75)), key(0.75));
    assert_eq!(specular_base(key(-0.75)), ZERO);
    assert_eq!(specular_base(key(-0.0)), ZERO);
    assert_eq!(specular_base(key(f32::NAN)), ZERO);
    assert_eq!(specular_base(key(f32::INFINITY)), INFINITY);
}
