//! Scenes of spheres and triangles, traced through the tree with the
//! arithmetic done here.
use bvh_tracer::aabb::{Axis, Point3, AABB};
use bvh_tracer::bounded::Bounded;
use bvh_tracer::bvh::{BuildError, BVH};
use bvh_tracer::key::{bits_from_key, key_from_bits};
use bvh_tracer::surface::{sphere_hit, triangle_hit};
use glam::Vec3A;

fn key(x: f32) -> i32 {
    key_from_bits(x.to_bits())
}

fn number(key: i32) -> f32 {
    f32::from_bits(bits_from_key(key))
}

fn keys(v: Vec3A) -> Point3 {
    Point3 { x: key(v.x), y: key(v.y), z: key(v.z) }
}

fn vector(p: &Point3) -> Vec3A {
    Vec3A::new(number(p.x), number(p.y), number(p.z))
}

#[derive(Clone, Debug, PartialEq)]
enum Shape {
    Sphere { centre: Vec3A, radius: f32 },
    Triangle { v0: Vec3A, v1: Vec3A, v2: Vec3A },
}

struct Ray {
    origin: Vec3A,
    direction: Vec3A,
}

impl Shape {
    fn aabb(&self) -> AABB {
        match self {
            Shape::Sphere { centre, radius } => AABB {
                min: keys(*centre - Vec3A::splat(*radius)),
                max: keys(*centre + Vec3A::splat(*radius)),
            },
            Shape::Triangle { v0, v1, v2 } => AABB::around(keys(*v0), keys(*v1), keys(*v2)),
        }
    }

    fn bounded(self) -> Bounded<Shape> {
        let aabb = self.aabb();
        let midpoint = keys((vector(&aabb.min) + vector(&aabb.max)) * 0.5);
        Bounded { shape: self, aabb, midpoint }
    }

    fn ray_intersect(&self, ray: &Ray) -> Option<i32> {
        match self {
            Shape::Sphere { centre, radius } => {
                let a = ray.direction.length_squared();
                let oc = ray.origin - *centre;
                let half_b = oc.dot(ray.direction);
                let c = oc.length_squared() - radius * radius;
                let discriminant = half_b * half_b - a * c;
                let root_one = (-half_b - discriminant.sqrt()) / a;
                let root_two = (-half_b + discriminant.sqrt()) / a;
                sphere_hit(key(discriminant), key(root_one), key(root_two))
            }
            Shape::Triangle { v0, v1, v2 } => {
                let v0v1 = *v1 - *v0;
                let v0v2 = *v2 - *v0;
                let plane_vec = v0v1.cross(v0v2);
                let det = -ray.direction.dot(plane_vec);
                let inv_det = 1.0 / det;
                let b = ray.origin - *v0;
                let u = inv_det * -ray.direction.dot(b.cross(v0v2));
                let v = inv_det * -ray.direction.dot(v0v1.cross(b));
                let t = inv_det * b.dot(plane_vec);
                triangle_hit(key(det), key(u), key(v), key(u + v), key(t))
            }
        }
    }
}

fn ray_hit(aabb: &AABB, ray: &Ray) -> bool {
    let ta = (vector(&aabb.min) - ray.origin) / ray.direction;
    let tb = (vector(&aabb.max) - ray.origin) / ray.direction;
    AABB::ray_hit(&keys(ta), &keys(tb))
}

fn max_axis(aabb: &AABB) -> Axis {
    AABB::max_axis(&keys(vector(&aabb.max) - vector(&aabb.min)))
}

fn build(shapes: Vec<Shape>) -> BVH<Shape> {
    let surfaces: Vec<Bounded<Shape>> = shapes.into_iter().map(Shape::bounded).collect();
    match BVH::new(surfaces, max_axis) {
        Ok(bvh) => bvh,
        Err(BuildError::Empty) => panic!("a scene without surfaces"),
    }
}

fn trace(bvh: &BVH<Shape>, ray: &Ray) -> Option<(f32, usize)> {
    bvh.ray_intersect(|aabb| ray_hit(aabb, ray), |shape| shape.ray_intersect(ray))
        .map(|(t, i)| (number(t), i))
}

fn shadowed(bvh: &BVH<Shape>, ray: &Ray) -> bool {
    bvh.hits_any(|aabb| ray_hit(aabb, ray), |shape| shape.ray_intersect(ray))
}

/// The first of the nearest hits among all surfaces, with no tree.
fn scan(bvh: &BVH<Shape>, ray: &Ray) -> Option<(f32, usize)> {
    let mut best: Option<(f32, usize)> = None;
    for (i, s) in bvh.surfaces().iter().enumerate() {
        if let Some(t) = s.shape.ray_intersect(ray) {
            let t = number(t);
            match best {
                Some((prior, _)) if !(t < prior) => {}
                _ => best = Some((t, i)),
            }
        }
    }
    best
}

/// Numbers between 0 and 1 that look scattered and are the same on every run.
struct Scatter(u32);

impl Scatter {
    fn next(&mut self) -> f32 {
        self.0 = self.0.wrapping_mul(1_664_525).wrapping_add(1_013_904_223);
        (self.0 >> 8) as f32 / 16_777_216.0
    }

    fn between(&mut self, lo: f32, hi: f32) -> f32 {
        lo + (hi - lo) * self.next()
    }
}

fn scattered_scene(seed: u32, spheres: usize, triangles: usize) -> Vec<Shape> {
    let mut s = Scatter(seed);
    let mut shapes = Vec::new();
    for _ in 0..spheres {
        shapes.push(Shape::Sphere {
            centre: Vec3A::new(s.between(-8.0, 8.0), s.between(-5.0, 5.0), s.between(6.0, 30.0)),
            radius: s.between(0.2, 1.5),
        });
    }
    for _ in 0..triangles {
        let at = Vec3A::new(s.between(-8.0, 8.0), s.between(-5.0, 5.0), s.between(6.0, 30.0));
        let e1 = Vec3A::new(s.between(0.5, 3.0), s.between(-1.0, 1.0), s.between(0.1, 1.0));
        let e2 = Vec3A::new(s.between(-1.0, 1.0), s.between(0.5, 3.0), s.between(0.1, 1.0));
        shapes.push(Shape::Triangle { v0: at + e1, v1: at, v2: at + e2 });
    }
    shapes
}

#[test]
fn a_triangle_behind_a_tree_is_hit_and_missed() {
    let shapes = vec![
        Shape::Triangle {
            v0: Vec3A::new(6.0, -2.0, 16.0),
            v1: Vec3A::new(-6.0, -2.0, 16.0),
            v2: Vec3A::new(0.0, 5.0, 16.0),
        },
        Shape::Sphere { centre: Vec3A::new(20.0, 0.0, 10.0), radius: 1.0 },
        Shape::Sphere { centre: Vec3A::new(-20.0, 0.0, 10.0), radius: 1.0 },
        Shape::Sphere { centre: Vec3A::new(0.0, 20.0, 10.0), radius: 1.0 },
    ];
    let triangle = shapes[0].clone();
    let bvh = build(shapes);

    let miss = Ray { origin: Vec3A::ZERO, direction: Vec3A::new(-1.0, 5.0, 16.0).normalize() };
    assert_eq!(trace(&bvh, &miss), None);
    assert!(!shadowed(&bvh, &miss));

    let hit = Ray { origin: Vec3A::ZERO, direction: Vec3A::new(0.0, 5.0, 16.0).normalize() };
    let (t, i) = trace(&bvh, &hit).unwrap();
    assert_eq!(bvh.surfaces()[i].shape, triangle);
    assert!((t - Vec3A::new(0.0, 5.0, 16.0).length()).abs() < 1e-4, "{}", t);
    assert!(shadowed(&bvh, &hit));
}

#[test]
fn a_sphere_behind_a_tree_is_hit_at_the_distance_less_the_radius() {
    let centre = Vec3A::new(3.0, 0.0, 10.0);
    let shapes = vec![
        Shape::Sphere { centre: Vec3A::new(-4.0, -0.5, 14.0), radius: 1.0 },
        Shape::Sphere { centre, radius: 1.0 },
        Shape::Sphere { centre: Vec3A::new(3.5, 4.5, 8.0), radius: 1.0 },
        Shape::Sphere { centre: Vec3A::new(-3.5, 4.5, 8.0), radius: 1.0 },
        Shape::Sphere { centre: Vec3A::new(0.0, -6.0, 8.0), radius: 1.0 },
    ];
    let bvh = build(shapes);

    let origin = Vec3A::new(0.0, 0.0, -1.0);
    let at_centre = Ray { origin, direction: (centre - origin).normalize() };
    let (t, i) = trace(&bvh, &at_centre).unwrap();
    assert_eq!(bvh.surfaces()[i].shape, Shape::Sphere { centre, radius: 1.0 });
    assert!((t - ((centre - origin).length() - 1.0)).abs() < 1e-4, "{}", t);

    let beside = Ray { origin: Vec3A::new(3.0, 1.5, -1.0), direction: Vec3A::Z };
    assert_eq!(trace(&bvh, &beside), None);
    assert!(!shadowed(&bvh, &beside));
}

#[test]
fn of_two_spheres_in_line_the_nearer_is_hit() {
    let near = Shape::Sphere { centre: Vec3A::new(0.0, 0.0, 5.0), radius: 1.0 };
    let far = Shape::Sphere { centre: Vec3A::new(0.0, 0.0, 9.0), radius: 2.0 };
    for order in [vec![near.clone(), far.clone()], vec![far.clone(), near.clone()]] {
        let mut shapes = order;
        shapes.push(Shape::Sphere { centre: Vec3A::new(9.0, 9.0, 9.0), radius: 1.0 });
        shapes.push(Shape::Sphere { centre: Vec3A::new(-9.0, 9.0, 9.0), radius: 1.0 });
        shapes.push(Shape::Sphere { centre: Vec3A::new(-9.0, -9.0, 9.0), radius: 1.0 });
        let bvh = build(shapes);
        let ray = Ray { origin: Vec3A::ZERO, direction: Vec3A::Z };
        let (t, i) = trace(&bvh, &ray).unwrap();
        assert_eq!(t, 4.0);
        assert_eq!(bvh.surfaces()[i].shape, near);
    }
}

#[test]
fn the_tree_finds_what_a_scan_of_scattered_spheres_finds() {
    let mut found = 0;
    for seed in 1..=6u32 {
        let bvh = build(scattered_scene(seed, 40, 0));
        let mut s = Scatter(seed ^ 0x5eed);
        for _ in 0..400 {
            let origin = Vec3A::new(s.between(-1.0, 1.0), s.between(-1.0, 1.0), -1.0);
            let toward = Vec3A::new(s.between(-9.0, 9.0), s.between(-6.0, 6.0), 18.0);
            let ray = Ray { origin, direction: (toward - origin).normalize() };
            let got = trace(&bvh, &ray);
            assert_eq!(got, scan(&bvh, &ray));
            assert_eq!(shadowed(&bvh, &ray), got.is_some());
            if got.is_some() {
                found += 1;
            }
        }
    }
    assert!(found > 100, "only {} rays hit anything", found);
}

#[test]
fn the_tree_finds_what_a_scan_of_a_mixed_scene_finds() {
    let mut found = 0;
    for seed in 11..=14u32 {
        let bvh = build(scattered_scene(seed, 25, 25));
        let mut s = Scatter(seed ^ 0xfeed);
        for _ in 0..400 {
            let origin = Vec3A::new(s.between(-1.0, 1.0), s.between(-1.0, 1.0), -1.0);
            let toward = Vec3A::new(s.between(-9.0, 9.0), s.between(-6.0, 6.0), 18.0);
            let ray = Ray { origin, direction: (toward - origin).normalize() };
            let got = trace(&bvh, &ray);
            assert_eq!(got, scan(&bvh, &ray));
            assert_eq!(shadowed(&bvh, &ray), got.is_some());
            if got.is_some() {
                found += 1;
            }
        }
    }
    assert!(found > 100, "only {} rays hit anything", found);
}

#[test]
fn a_flat_box_through_the_origin_hides_what_is_below_it() {
    let floor = |x: f32, z: f32| Shape::Triangle {
        v0: Vec3A::new(x, 0.0, z),
        v1: Vec3A::new(x, 0.0, z + 1.0),
        v2: Vec3A::new(x + 1.0, 0.0, z),
    };
    let bvh = build(vec![floor(0.0, 0.0), floor(2.0, 0.0), floor(0.0, 2.0)]);
    let ray = Ray { origin: Vec3A::new(0.25, 1.0, 0.25), direction: Vec3A::new(0.0, -1.0, 0.0) };
    assert!(scan(&bvh, &ray).is_some());
    assert_eq!(trace(&bvh, &ray), None);
    assert!(!shadowed(&bvh, &ray));
}

#[test]
fn a_scene_is_split_along_its_longest_side() {
    let shapes: Vec<Shape> = (0..6)
        .map(|k| Shape::Sphere {
            centre: Vec3A::new(0.5 * (k % 2) as f32, 7.0 * (5 - k) as f32, 1.0),
            radius: 0.25,
        })
        .collect();
    let bvh = build(shapes);
    let ys: Vec<f32> = bvh.surfaces().iter().map(|s| number(s.midpoint.y)).collect();
    for i in 0..3 {
        for j in 3..6 {
            assert!(ys[i] <= ys[j]);
        }
    }
    assert_eq!(ys[2], 14.0);
    assert_eq!(ys[3], 21.0);
}
