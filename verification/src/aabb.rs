//! Axis-aligned boxes over order keys.
use vstd::prelude::*;
use crate::key::{is_nan, less, NEG_INFINITY};

verus! {

/// One of the three coordinate axes.
#[derive(Clone, Copy, Debug, PartialEq, Eq, Structural)]
pub enum Axis {
    X,
    Y,
    Z,
}

impl Axis {
    /// The axis index: 0 for x, 1 for y, 2 for z.
    pub open spec fn spec_index(self) -> int {
        match self {
            Axis::X => 0,
            Axis::Y => 1,
            Axis::Z => 2,
        }
    }

    /// The axis index: 0 for x, 1 for y, 2 for z.
    pub fn index(self) -> (i: usize)
        ensures
            i == self.spec_index(),
    {
        match self {
            Axis::X => 0,
            Axis::Y => 1,
            Axis::Z => 2,
        }
    }

}

/// A point given by the order keys of its three coordinates.
#[derive(Clone, Copy, Debug, PartialEq, Eq, Structural)]
pub struct Point3 {
    pub x: i32,
    pub y: i32,
    pub z: i32,
}

/// The smaller of two keys.
pub open spec fn key_min(a: i32, b: i32) -> i32 {
    if b < a {
        b
    } else {
        a
    }
}

/// The larger of two keys.
pub open spec fn key_max(a: i32, b: i32) -> i32 {
    if b > a {
        b
    } else {
        a
    }
}

impl Point3 {
    /// The key along one axis.
    pub open spec fn coord(self, axis: Axis) -> i32 {
        match axis {
            Axis::X => self.x,
            Axis::Y => self.y,
            Axis::Z => self.z,
        }
    }

    /// The componentwise minimum.
    pub open spec fn spec_min(self, other: Point3) -> Point3 {
        Point3 {
            x: key_min(self.x, other.x),
            y: key_min(self.y, other.y),
            z: key_min(self.z, other.z),
        }
    }

    /// The componentwise maximum.
    pub open spec fn spec_max(self, other: Point3) -> Point3 {
        Point3 {
            x: key_max(self.x, other.x),
            y: key_max(self.y, other.y),
            z: key_max(self.z, other.z),
        }
    }

    /// Whether any of the three keys is that of a NaN pattern.
    pub open spec fn spec_has_nan(&self) -> bool {
        is_nan(self.x) || is_nan(self.y) || is_nan(self.z)
    }

    /// The greatest of the three keys.
    pub open spec fn spec_max_element(&self) -> i32 {
        key_max(key_max(self.x, self.y), self.z)
    }

    /// The least of the three keys.
    pub open spec fn spec_min_element(&self) -> i32 {
        key_min(key_min(self.x, self.y), self.z)
    }

    /// Whether any of the three keys is that of a NaN pattern.
    #[verifier::when_used_as_spec(spec_has_nan)]
    pub fn has_nan(&self) -> (r: bool)
        ensures
            r == self.spec_has_nan(),
    {
        is_nan(self.x) || is_nan(self.y) || is_nan(self.z)
    }

    /// The greatest of the three keys.
    #[verifier::when_used_as_spec(spec_max_element)]
    pub fn max_element(&self) -> (key: i32)
        ensures
            key == self.spec_max_element(),
    {
        let xy: i32 = if self.y > self.x { self.y } else { self.x };
        if self.z > xy { self.z } else { xy }
    }

    /// The least of the three keys.
    #[verifier::when_used_as_spec(spec_min_element)]
    pub fn min_element(&self) -> (key: i32)
        ensures
            key == self.spec_min_element(),
    {
        let xy: i32 = if self.y < self.x { self.y } else { self.x };
        if self.z < xy { self.z } else { xy }
    }

    /// The point whose three keys are all `key`.
    pub fn splat(key: i32) -> (p: Point3)
        ensures
            p == (Point3 { x: key, y: key, z: key }),
    {
        Point3 { x: key, y: key, z: key }
    }

    /// The key along one axis.
    pub fn get(&self, axis: Axis) -> (key: i32)
        ensures
            key == self.coord(axis),
    {
        match axis {
            Axis::X => self.x,
            Axis::Y => self.y,
            Axis::Z => self.z,
        }
    }

    /// The componentwise minimum.
    #[verifier::when_used_as_spec(spec_min)]
    pub fn min(self, other: Point3) -> (p: Point3)
        ensures
            p == self.spec_min(other),
    {
        Point3 {
            x: if other.x < self.x { other.x } else { self.x },
            y: if other.y < self.y { other.y } else { self.y },
            z: if other.z < self.z { other.z } else { self.z },
        }
    }

    /// The componentwise maximum.
    #[verifier::when_used_as_spec(spec_max)]
    pub fn max(self, other: Point3) -> (p: Point3)
        ensures
            p == self.spec_max(other),
    {
        Point3 {
            x: if other.x > self.x { other.x } else { self.x },
            y: if other.y > self.y { other.y } else { self.y },
            z: if other.z > self.z { other.z } else { self.z },
        }
    }
}

/// An axis-aligned box, given by its two corners.
///
/// A box is meant to have `min` at or below `max` along every axis. Nothing
/// here depends on that: the union is defined for any two corner pairs.
#[derive(Clone, Copy, Debug, PartialEq, Eq, Structural)]
pub struct AABB {
    pub min: Point3,
    pub max: Point3,
}

impl AABB {
    /// The box that has both corners at the origin.
    pub open spec fn spec_zero() -> AABB {
        AABB { min: Point3 { x: 0, y: 0, z: 0 }, max: Point3 { x: 0, y: 0, z: 0 } }
    }

    /// The smallest box that holds both boxes.
    pub open spec fn union(self, other: AABB) -> AABB {
        AABB { min: self.min.spec_min(other.min), max: self.max.spec_max(other.max) }
    }

    /// Whether `other` lies inside this box, along every axis.
    pub open spec fn encloses(self, other: AABB) -> bool {
        &&& self.min.x <= other.min.x
        &&& self.min.y <= other.min.y
        &&& self.min.z <= other.min.z
        &&& other.max.x <= self.max.x
        &&& other.max.y <= self.max.y
        &&& other.max.z <= self.max.z
    }

    /// The union of the origin box with the boxes of `boxes`, taken in order.
    pub open spec fn hull(boxes: Seq<AABB>) -> AABB
        decreases boxes.len(),
    {
        if boxes.len() == 0 {
            AABB::spec_zero()
        } else {
            AABB::hull(boxes.drop_last()).union(boxes.last())
        }
    }

    /// The axis of greatest extent, found as [`AABB::max_axis`] finds it:
    /// the axes are taken in the order x, y, z, and an axis is chosen if
    /// its extent is greater than negative infinity and greater than that
    /// of the axis chosen before it.
    pub open spec fn spec_max_axis(extent: Point3) -> Axis {
        let best_x = if less(NEG_INFINITY, extent.x) {
            extent.x
        } else {
            NEG_INFINITY
        };
        let (best_xy, axis_xy) = if less(best_x, extent.y) {
            (extent.y, Axis::Y)
        } else {
            (best_x, Axis::X)
        };
        if less(best_xy, extent.z) {
            Axis::Z
        } else {
            axis_xy
        }
    }

    /// Whether a ray passes through a box, found as [`AABB::ray_hit`] finds
    /// it.
    pub open spec fn spec_ray_hit(ta: Point3, tb: Point3) -> bool {
        &&& !ta.has_nan()
        &&& !tb.has_nan()
        &&& less(ta.spec_min(tb).max_element(), ta.spec_max(tb).min_element())
    }

    /// The axis of greatest extent, `extent` being the difference of the
    /// box's corners, `max - min`, along each axis.
    ///
    /// Of several axes with the greatest extent the first is chosen. An
    /// extent that is NaN is never chosen; where no extent is greater than
    /// negative infinity, the axis is x.
    pub fn max_axis(extent: &Point3) -> (axis: Axis)
        ensures
            axis == AABB::spec_max_axis(*extent),
            !extent.has_nan() ==> {
                &&& !less(extent.coord(axis), extent.x)
                &&& !less(extent.coord(axis), extent.y)
                &&& !less(extent.coord(axis), extent.z)
                &&& axis == Axis::Y ==> less(extent.x, extent.y)
                &&& axis == Axis::Z ==> less(extent.x, extent.z) && less(extent.y, extent.z)
            },
    {
        let mut max: i32 = NEG_INFINITY;
        let mut axis = Axis::X;
        if less(max, extent.x) {
            max = extent.x;
        }
        if less(max, extent.y) {
            max = extent.y;
            axis = Axis::Y;
        }
        if less(max, extent.z) {
            axis = Axis::Z;
        }
        axis
    }

    /// Whether a ray passes through a box: the slab test.
    ///
    /// `ta` and `tb` hold, for each axis, the ray parameters at which the
    /// ray crosses the planes of the box's `min` and `max` corners:
    /// `(min - origin) / direction` and `(max - origin) / direction`. Along
    /// each axis the ray is between the two planes from the smaller of the
    /// two parameters to the larger. It passes through the box if it enters
    /// the last slab before it leaves the first: if the greatest of the
    /// three smaller parameters is less than the least of the three larger
    /// ones. Parameters below zero count like any others. A ray with a
    /// parameter that is NaN misses.
    pub fn ray_hit(ta: &Point3, tb: &Point3) -> (hit: bool)
        ensures
            hit == AABB::spec_ray_hit(*ta, *tb),
    {
        if ta.has_nan() || tb.has_nan() {
            false
        } else {
            let enter = ta.min(*tb);
            let exit = ta.max(*tb);
            less(enter.max_element(), exit.min_element())
        }
    }

    /// The least box that holds the three points.
    pub open spec fn spec_around(a: Point3, b: Point3, c: Point3) -> AABB {
        AABB { min: a.spec_min(b.spec_min(c)), max: a.spec_max(b.spec_max(c)) }
    }

    /// The least box that holds the three points: the box of a triangle
    /// with these corners.
    #[verifier::when_used_as_spec(spec_around)]
    pub fn around(a: Point3, b: Point3, c: Point3) -> (aabb: AABB)
        ensures
            aabb == AABB::spec_around(a, b, c),
    {
        AABB { min: a.min(b.min(c)), max: a.max(b.max(c)) }
    }

    /// The degenerate box at the origin, from which a union is accumulated.
    #[verifier::when_used_as_spec(spec_zero)]
    pub fn zero() -> (b: AABB)
        ensures
            b == AABB::spec_zero(),
    {
        AABB { min: Point3::splat(0), max: Point3::splat(0) }
    }

    /// Grows this box to the smallest box that holds it and `aabb`.
    pub fn union_mut(&mut self, aabb: &AABB)
        ensures
            *final(self) == old(self).union(*aabb),
    {
        self.min = self.min.min(aabb.min);
        self.max = self.max.max(aabb.max);
    }
}

/// The union does not depend on the order of its two boxes.
pub proof fn lemma_union_commutative(a: AABB, b: AABB)
    ensures
        a.union(b) == b.union(a),
{
}

/// Joining a box that is already part of a union changes nothing.
pub proof fn lemma_union_idempotent(a: AABB, b: AABB)
    ensures
        a.union(b).union(b) == a.union(b),
        a.union(a) == a,
{
}

/// A union of three boxes may be taken in either grouping.
pub proof fn lemma_union_associative(a: AABB, b: AABB, c: AABB)
    ensures
        a.union(b).union(c) == a.union(b.union(c)),
{
}

/// A union encloses both of its boxes, and it is the least box that does:
/// any box that encloses both encloses the union.
pub proof fn lemma_union_is_least_enclosing(a: AABB, b: AABB, c: AABB)
    ensures
        a.union(b).encloses(a),
        a.union(b).encloses(b),
        c.encloses(a) && c.encloses(b) ==> c.encloses(a.union(b)),
{
}

/// Two boxes that enclose each other are the same box.
pub proof fn lemma_encloses_antisymmetric(a: AABB, b: AABB)
    requires
        a.encloses(b),
        b.encloses(a),
    ensures
        a == b,
{
}

/// A hull encloses the origin box and every box it was taken over.
pub proof fn lemma_hull_encloses(boxes: Seq<AABB>)
    ensures
        AABB::hull(boxes).encloses(AABB::spec_zero()),
        forall|i: int| 0 <= i < boxes.len() ==> AABB::hull(boxes).encloses(#[trigger] boxes[i]),
    decreases boxes.len(),
{
    if boxes.len() > 0 {
        let front = boxes.drop_last();
        lemma_hull_encloses(front);
        assert forall|i: int| 0 <= i < boxes.len() implies AABB::hull(boxes).encloses(
            #[trigger] boxes[i],
        ) by {
            if i < front.len() {
                assert(AABB::hull(front).encloses(front[i]));
            }
        }
    }
}

/// A hull is the least box that encloses the origin box and every box it was
/// taken over.
pub proof fn lemma_hull_is_least(boxes: Seq<AABB>, outer: AABB)
    requires
        outer.encloses(AABB::spec_zero()),
        forall|i: int| 0 <= i < boxes.len() ==> outer.encloses(#[trigger] boxes[i]),
    ensures
        outer.encloses(AABB::hull(boxes)),
    decreases boxes.len(),
{
    if boxes.len() > 0 {
        let front = boxes.drop_last();
        assert forall|i: int| 0 <= i < front.len() implies outer.encloses(#[trigger] front[i]) by {
            assert(front[i] == boxes[i]);
        }
        lemma_hull_is_least(front, outer);
        assert(outer.encloses(boxes[boxes.len() - 1]));
    }
}

/// Whether every box of `a` occurs in `b`.
pub open spec fn each_occurs_in(a: Seq<AABB>, b: Seq<AABB>) -> bool {
    forall|i: int| 0 <= i < a.len() ==> b.contains(#[trigger] a[i])
}

/// The hull depends only on which boxes occur, not on their order or number.
pub proof fn lemma_hull_of_same_boxes(a: Seq<AABB>, b: Seq<AABB>)
    requires
        each_occurs_in(a, b),
        each_occurs_in(b, a),
    ensures
        AABB::hull(a) == AABB::hull(b),
{
    lemma_hull_encloses(a);
    lemma_hull_encloses(b);
    assert forall|i: int| 0 <= i < a.len() implies AABB::hull(b).encloses(#[trigger] a[i]) by {
        assert(b.contains(a[i]));
        let j = choose|j: int| 0 <= j < b.len() && b[j] == a[i];
        assert(AABB::hull(b).encloses(b[j]));
    }
    assert forall|i: int| 0 <= i < b.len() implies AABB::hull(a).encloses(#[trigger] b[i]) by {
        assert(a.contains(b[i]));
        let j = choose|j: int| 0 <= j < a.len() && a[j] == b[i];
        assert(AABB::hull(a).encloses(a[j]));
    }
    lemma_hull_is_least(a, AABB::hull(b));
    lemma_hull_is_least(b, AABB::hull(a));
    lemma_encloses_antisymmetric(AABB::hull(a), AABB::hull(b));
}

/// The hull of two runs of boxes laid end to end is the union of their hulls.
pub proof fn lemma_hull_of_concat(a: Seq<AABB>, b: Seq<AABB>)
    ensures
        AABB::hull(a + b) == AABB::hull(a).union(AABB::hull(b)),
{
    let whole = AABB::hull(a + b);
    let joined = AABB::hull(a).union(AABB::hull(b));
    lemma_hull_encloses(a);
    lemma_hull_encloses(b);
    lemma_hull_encloses(a + b);
    assert forall|i: int| 0 <= i < a.len() implies whole.encloses(#[trigger] a[i]) by {
        assert((a + b)[i] == a[i]);
    }
    assert forall|i: int| 0 <= i < b.len() implies whole.encloses(#[trigger] b[i]) by {
        assert((a + b)[a.len() + i] == b[i]);
    }
    lemma_hull_is_least(a, whole);
    lemma_hull_is_least(b, whole);
    assert forall|i: int| 0 <= i < (a + b).len() implies joined.encloses(#[trigger] (a + b)[i]) by {
        if i < a.len() {
            assert(AABB::hull(a).encloses(a[i]));
        } else {
            assert(AABB::hull(b).encloses(b[i - a.len()]));
        }
    }
    lemma_hull_is_least(a + b, joined);
    lemma_encloses_antisymmetric(whole, joined);
}

} // verus!
