use bvh_tracer::aabb::{Axis, Point3, AABB};

fn point(x: i32, y: i32, z: i32) -> Point3 {
    Point3 { x, y, z }
}

fn aabb(min: (i32, i32, i32), max: (i32, i32, i32)) -> AABB {
    AABB { min: point(min.0, min.1, min.2), max: point(max.0, max.1, max.2) }
}

fn union(a: AABB, b: AABB) -> AABB {
    let mut u = a;
    u.union_mut(&b);
    u
}

#[test]
fn zero_is_the_box_at_the_origin() {
    assert_eq!(AABB::zero(), aabb((0, 0, 0), (0, 0, 0)));
}

#[test]
fn union_takes_the_least_and_the_greatest_corner() {
    let mut a = aabb((-1, 2, 3), (4, 5, 6));
    a.union_mut(&aabb((0, -7, 4), (3, 9, 5)));
    assert_eq!(a, aabb((-1, -7, 3), (4, 9, 6)));
}

#[test]
fn union_leaves_its_argument_alone() {
    let mut a = aabb((0, 0, 0), (1, 1, 1));
    let b = aabb((-5, -5, -5), (5, 5, 5));
    a.union_mut(&b);
    assert_eq!(b, aabb((-5, -5, -5), (5, 5, 5)));
    assert_eq!(a, b);
}

#[test]
fn union_is_commutative() {
    let boxes = [
        aabb((-1, 2, 3), (4, 5, 6)),
        aabb((0, -7, 4), (3, 9, 5)),
        aabb((i32::MIN, 0, 0), (i32::MAX, 0, 0)),
        AABB::zero(),
    ];
    for a in boxes {
        for b in boxes {
            assert_eq!(union(a, b), union(b, a));
        }
    }
}

#[test]
fn union_is_idempotent() {
    let boxes = [
        aabb((-1, 2, 3), (4, 5, 6)),
        aabb((0, -7, 4), (3, 9, 5)),
        aabb((i32::MIN, 0, 0), (i32::MAX, 0, 0)),
        AABB::zero(),
    ];
    for a in boxes {
        assert_eq!(union(a, a), a);
        for b in boxes {
            assert_eq!(union(union(a, b), b), union(a, b));
        }
    }
}

#[test]
fn union_from_zero_keeps_the_origin() {
    let mut acc = AABB::zero();
    acc.union_mut(&aabb((3, 3, 3), (5, 5, 5)));
    assert_eq!(acc, aabb((0, 0, 0), (5, 5, 5)));
    acc.union_mut(&aabb((-2, 4, -9), (-1, 8, -3)));
    assert_eq!(acc, aabb((-2, 0, -9), (5, 8, 5)));
}

#[test]
fn point_min_and_max_are_componentwise() {
    let a = point(1, -2, 3);
    let b = point(0, 5, 3);
    assert_eq!(a.min(b), point(0, -2, 3));
    assert_eq!(a.max(b), point(1, 5, 3));
    assert_eq!(b.min(a), point(0, -2, 3));
    assert_eq!(b.max(a), point(1, 5, 3));
}

#[test]
fn point_get_reads_each_axis() {
    let p = point(7, 8, 9);
    assert_eq!(p.get(Axis::X), 7);
    assert_eq!(p.get(Axis::Y), 8);
    assert_eq!(p.get(Axis::Z), 9);
    assert_eq!(Point3::splat(4), point(4, 4, 4));
}

#[test]
fn axis_indices() {
    assert_eq!(Axis::X.index(), 0);
    assert_eq!(Axis::Y.index(), 1);
    assert_eq!(Axis::Z.index(), 2);
}
