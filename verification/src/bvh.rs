//! Building the tree over a set of surfaces, and walking it along a ray.
use vstd::prelude::*;
use crate::aabb::{AABB, Axis};
use crate::bounded::{Bounded, boxes, midpoints};
use crate::arena::{
    linked, links_back, links_from, rank, starts, subtree, within, lemma_links_from_grows,
    lemma_subtree_stays,
};
use crate::node::{ChildPointer, Internal, Leaf};
use crate::reorder::{
    reordered, lemma_reordered_came_from, lemma_reordered_hull, lemma_reordered_twice,
    lemma_reordered_widens,
};
use crate::tree::{
    Candidate, Tree, any_hit, candidate, closer, held, scan, tiles, lemma_bounds_stays,
    lemma_covers_span, lemma_leaves_partition, lemma_leaves_tile, lemma_median_split_stays,
    lemma_nearest_is_scan, lemma_nearest_is_scan_iff_reached,
};

verus! {

/// Why a tree could not be built.
#[derive(Clone, Copy, Debug, PartialEq, Eq, Structural)]
pub enum BuildError {
    /// There are no surfaces to build a tree over.
    Empty,
}

/// Whether `box_hit` holds the answer of the box test `f` for every box.
pub open spec fn answers_box<B: Fn(&AABB) -> bool>(f: B, box_hit: spec_fn(AABB) -> bool) -> bool {
    forall|b: AABB, r: bool| #[trigger] call_ensures(f, (&b,), r) ==> r == box_hit(b)
}

/// Whether `hits` holds the answer of the surface test `f` for each of the
/// surfaces, by index.
pub open spec fn answers_hits<T, H: Fn(&T) -> Option<i32>>(
    f: H,
    surfaces: Seq<Bounded<T>>,
    hits: Seq<Option<i32>>,
) -> bool {
    &&& hits.len() == surfaces.len()
    &&& forall|i: int, r: Option<i32>|
        0 <= i < surfaces.len() && #[trigger] call_ensures(f, (&surfaces[i].shape,), r) ==> r
            == hits[i]
}

/// Whether `axis_of` holds the answer of the axis choice `f` for every box.
pub open spec fn answers_axis<A: Fn(&AABB) -> Axis>(f: A, axis_of: spec_fn(AABB) -> Axis) -> bool {
    forall|b: AABB, r: Axis| #[trigger] call_ensures(f, (&b,), r) ==> r == axis_of(b)
}

/// The candidate that a walk returned.
pub open spec fn found(r: Option<(i32, usize)>) -> Candidate {
    match r {
        Some((t, i)) => Some((t, i as int)),
        None => None,
    }
}

/// Sorts the surfaces at `begin..end` by the key of their midpoints along
/// `axis`, with `sort_unstable_by_key` of the standard library's slices. The
/// contract claims what that function documents: the run holds the same
/// surfaces as before, in ascending order of the key; and, since the call is
/// made on the run alone, the surfaces outside it stay where they are.
#[verifier::external_body]
fn sort_by_midpoint<T>(surfaces: &mut Vec<Bounded<T>>, begin: usize, end: usize, axis: Axis)
    requires
        begin <= end <= old(surfaces).len(),
    ensures
        reordered(old(surfaces)@, final(surfaces)@, begin as int, end as int),
        forall|i: int, j: int|
            begin <= i <= j < end ==> (#[trigger] final(surfaces)@[i]).midpoint.coord(axis) <= (
            #[trigger] final(surfaces)@[j]).midpoint.coord(axis),
{
    surfaces[begin..end].sort_unstable_by_key(|s| s.midpoint.get(axis));
}

/// The hull of the boxes of the surfaces at `begin..end`.
fn hull_of<T>(surfaces: &Vec<Bounded<T>>, begin: usize, end: usize) -> (bounding: AABB)
    requires
        begin <= end <= surfaces.len(),
    ensures
        bounding == AABB::hull(boxes(surfaces@).subrange(begin as int, end as int)),
{
    let mut bounding = AABB::zero();
    let mut k: usize = begin;
    while k < end
        invariant
            begin <= k <= end <= surfaces.len(),
            bounding == AABB::hull(boxes(surfaces@).subrange(begin as int, k as int)),
        decreases end - k,
    {
        proof {
            let run = boxes(surfaces@).subrange(begin as int, k + 1);
            assert(run.drop_last() =~= boxes(surfaces@).subrange(begin as int, k as int));
            assert(run.last() == surfaces@[k as int].aabb);
        }
        bounding.union_mut(&surfaces[k].aabb);
        k += 1;
    }
    bounding
}

/// An inner node that is appended behind its two children, of which the
/// left was built first and the right behind it, stands over the two trees
/// as they were built, and the lists hold what they held and the new tree.
proof fn lemma_node_appended(
    i0: Seq<Internal>,
    l0: Seq<Leaf>,
    i1: Seq<Internal>,
    l1: Seq<Leaf>,
    i2: Seq<Internal>,
    l2: Seq<Leaf>,
    ln: ChildPointer,
    rn: ChildPointer,
    bounding: AABB,
    idx: usize,
)
    requires
        idx == i2.len(),
        starts(i0, i1),
        starts(i1, i2),
        l1 == l0 + subtree(i1, l1, ln).leaves(),
        l2 == l1 + subtree(i2, l2, rn).leaves(),
        i1.len() == i0.len() + subtree(i1, l1, ln).inner_count(),
        i2.len() == i1.len() + subtree(i2, l2, rn).inner_count(),
        within(ln, i0.len() as int, i1.len() as int, l0.len() as int, l1.len() as int),
        within(rn, i1.len() as int, i2.len() as int, l1.len() as int, l2.len() as int),
        links_from(i1, l1, i0.len() as int, l0.len() as int),
        links_from(i2, l2, i1.len() as int, l1.len() as int),
    ensures
        ({
            let i3 = i2.push(Internal { left: ln, right: rn, bounding });
            let tree = subtree(i3, l2, ChildPointer::Internal(idx));
            &&& tree == Tree::Node {
                left: Box::new(subtree(i1, l1, ln)),
                right: Box::new(subtree(i2, l2, rn)),
                bounding,
            }
            &&& starts(i0, i3)
            &&& l2 == l0 + tree.leaves()
            &&& i3.len() == i0.len() + tree.inner_count()
            &&& links_from(i3, l2, i0.len() as int, l0.len() as int)
        }),
{
    let i3 = i2.push(Internal { left: ln, right: rn, bounding });
    let p = ChildPointer::Internal(idx);
    let tree = subtree(i3, l2, p);
    let left = subtree(i1, l1, ln);
    let right = subtree(i2, l2, rn);
    let first_internal = i0.len() as int;
    let first_leaf = l0.len() as int;
    assert(l1 =~= l2.take(l1.len() as int));
    assert(starts(l1, l2));
    assert(i2 =~= i3.take(i2.len() as int));
    assert(i1 =~= i3.take(i1.len() as int));
    assert(i0 =~= i3.take(i0.len() as int));
    assert(i0 =~= i1.take(i0.len() as int));
    assert(l2.take(l2.len() as int) =~= l2);
    lemma_links_from_grows(i1, l1, i2, l2, first_internal, first_leaf);
    assert forall|i: int| first_internal <= i < i3.len() implies {
        &&& within((#[trigger] i3[i]).left, first_internal, i, first_leaf, l2.len() as int)
        &&& within(i3[i].right, first_internal, i, first_leaf, l2.len() as int)
    } by {
        if i < i2.len() {
            assert(i3[i] == i2[i]);
        }
    }
    lemma_subtree_stays(i1, l1, i3, l2, first_internal, first_leaf, ln);
    lemma_subtree_stays(i2, l2, i3, l2, i1.len() as int, l1.len() as int, rn);
    assert(rank(ln) < rank(p) && rank(rn) < rank(p));
    assert(tree == Tree::Node { left: Box::new(left), right: Box::new(right), bounding });
    assert(l2 =~= l0 + tree.leaves());
}

/// A run that was sorted along an axis and cut in half, and whose halves
/// were then built, each reordering its own half only and leaving a half of
/// at most two surfaces as it was, is held by the inner node over the two
/// halves as [`Tree::median_split`] says.
proof fn lemma_node_split<T>(
    s1: Seq<Bounded<T>>,
    s2: Seq<Bounded<T>>,
    s3: Seq<Bounded<T>>,
    begin: int,
    mid: int,
    end: int,
    left: Tree,
    right: Tree,
    bounding: AABB,
    axis_of: spec_fn(AABB) -> Axis,
)
    requires
        forall|i: int, j: int|
            begin <= i <= j < end ==> (#[trigger] s1[i]).midpoint.coord(axis_of(bounding)) <= (
            #[trigger] s1[j]).midpoint.coord(axis_of(bounding)),
        reordered(s1, s2, begin, mid),
        reordered(s2, s3, mid, end),
        mid - begin <= 2 ==> s2 == s1,
        end - mid <= 2 ==> s3 == s2,
        left.covers(begin, mid),
        right.covers(mid, end),
        left.median_split(axis_of, midpoints(s2)),
        right.median_split(axis_of, midpoints(s3)),
    ensures
        (Tree::Node { left: Box::new(left), right: Box::new(right), bounding }).median_split(
            axis_of,
            midpoints(s3),
        ),
{
    let axis = axis_of(bounding);
    lemma_covers_span(left, begin, mid);
    lemma_covers_span(right, mid, end);
    lemma_median_split_stays(left, begin, mid, axis_of, midpoints(s2), midpoints(s3));
    assert forall|i: int, j: int|
        left.begin() <= i < left.end() && right.begin() <= j < right.end() implies (
    #[trigger] midpoints(s3)[i]).coord(axis) <= (#[trigger] midpoints(s3)[j]).coord(axis) by {
        assert(s3[i] == s2[i]);
        let a = lemma_reordered_came_from(s1, s2, begin, mid, i);
        let b = lemma_reordered_came_from(s2, s3, mid, end, j);
        assert(s2[b] == s1[b]);
        assert(s1[a].midpoint.coord(axis) <= s1[b].midpoint.coord(axis));
    }
    if left is Leaf {
        assert(s2 == s1);
        assert forall|i: int, j: int| begin <= i <= j < mid implies (
        #[trigger] midpoints(s3)[i]).coord(axis) <= (#[trigger] midpoints(s3)[j]).coord(axis) by {
            assert(s3[i] == s1[i] && s3[j] == s1[j]);
            assert(s1[i].midpoint.coord(axis) <= s1[j].midpoint.coord(axis));
        }
    }
    if right is Leaf {
        assert(s3 == s2);
        assert forall|i: int, j: int| mid <= i <= j < end implies (
        #[trigger] midpoints(s3)[i]).coord(axis) <= (#[trigger] midpoints(s3)[j]).coord(axis) by {
            assert(s3[i] == s1[i] && s3[j] == s1[j]);
            assert(s1[i].midpoint.coord(axis) <= s1[j].midpoint.coord(axis));
        }
    }
}

/// A bounding volume hierarchy over surfaces of type `T`.
///
/// The tree is kept flat: inner nodes and leaves stand in two lists and link
/// to each other by index. The surfaces stand in the order that building
/// the tree left them in, and every leaf names a run of them.
#[derive(Debug)]
pub struct BVH<T> {
    internal: Vec<Internal>,
    leaf: Vec<Leaf>,
    surfaces: Vec<Bounded<T>>,
    root: ChildPointer,
}

impl<T> View for BVH<T> {
    type V = Tree;

    /// The tree below the root.
    open spec fn view(&self) -> Tree {
        subtree(self.spec_internal(), self.spec_leaves(), self.spec_root())
    }
}

impl<T> BVH<T> {
    /// The surfaces, in the order that building the tree left them in.
    pub closed spec fn spec_surfaces(&self) -> Seq<Bounded<T>> {
        self.surfaces@
    }

    /// The list of leaves.
    pub closed spec fn spec_leaves(&self) -> Seq<Leaf> {
        self.leaf@
    }

    /// The list of inner nodes.
    pub closed spec fn spec_internal(&self) -> Seq<Internal> {
        self.internal@
    }

    /// The link to the root.
    pub closed spec fn spec_root(&self) -> ChildPointer {
        self.root
    }

    /// Whether every link of the tree points at a node that exists, and
    /// every link of an inner node at a leaf or at an inner node that stands
    /// before it in the list.
    pub open spec fn linked_up(&self) -> bool {
        &&& links_back(self.spec_internal(), self.spec_leaves())
        &&& linked(self.spec_internal(), self.spec_leaves(), self.spec_root())
    }

    /// The tree below a link.
    pub open spec fn below(&self, p: ChildPointer) -> Tree {
        subtree(self.spec_internal(), self.spec_leaves(), p)
    }

    /// Whether a walk may start at the node behind the link: the links hold,
    /// and the tree below the link is the median split of a run of surfaces
    /// that exist.
    pub open spec fn walkable(&self, p: ChildPointer) -> bool {
        &&& self.linked_up()
        &&& linked(self.spec_internal(), self.spec_leaves(), p)
        &&& exists|lo: int, hi: int| #[trigger]
            self.below(p).covers(lo, hi) && hi <= self.spec_surfaces().len()
    }

    /// What holds of every tree that was built: there is at least one
    /// surface; the tree is the median split of all surfaces; the box of
    /// each node is the hull of the boxes of the surfaces below it; the list
    /// of leaves holds the leaves of the tree from left to right; the list
    /// of inner nodes holds no node that is not in the tree; and the root
    /// is the only leaf, where there are at most two surfaces, and else the
    /// last inner node.
    pub open spec fn wf(&self) -> bool {
        &&& self.linked_up()
        &&& self.spec_surfaces().len() > 0
        &&& self@.covers(0, self.spec_surfaces().len() as int)
        &&& self@.bounds(boxes(self.spec_surfaces()))
        &&& self.spec_leaves() == self@.leaves()
        &&& self.spec_internal().len() == self@.inner_count()
        &&& self.spec_root() == if self.spec_surfaces().len() <= 2 {
            ChildPointer::Leaf(0)
        } else {
            ChildPointer::Internal((self.spec_internal().len() - 1) as usize)
        }
    }

    /// Builds the tree over the surfaces at `begin..end` and appends its nodes
    /// to the two lists, which may hold anything before. A run of at most two
    /// surfaces becomes a leaf and stays in its order. A longer run is sorted by
    /// midpoint along the axis chosen for its box and cut in half, and each half
    /// is built in turn, the left one first; the inner node is appended behind
    /// everything below it. The link returned is the link to the node appended
    /// last.
    pub fn new_recur<A: Fn(&AABB) -> Axis>(
        surfaces: &mut Vec<Bounded<T>>,
        begin: usize,
        end: usize,
        internal: &mut Vec<Internal>,
        leaf: &mut Vec<Leaf>,
        max_axis: &A,
    ) -> (p: ChildPointer)
        requires
            begin <= end <= old(surfaces).len(),
            forall|b: AABB| call_requires(*max_axis, (&b,)),
        ensures
            reordered(old(surfaces)@, final(surfaces)@, begin as int, end as int),
            end - begin <= 2 ==> final(surfaces)@ == old(surfaces)@,
            starts(old(internal)@, final(internal)@),
            final(leaf)@ == old(leaf)@ + subtree(final(internal)@, final(leaf)@, p).leaves(),
            final(internal)@.len() == old(internal)@.len() + subtree(
                final(internal)@,
                final(leaf)@,
                p,
            ).inner_count(),
            p == if end - begin <= 2 {
                ChildPointer::Leaf(old(leaf)@.len() as usize)
            } else {
                ChildPointer::Internal((final(internal)@.len() - 1) as usize)
            },
            within(
                p,
                old(internal)@.len() as int,
                final(internal)@.len() as int,
                old(leaf)@.len() as int,
                final(leaf)@.len() as int,
            ),
            links_from(
                final(internal)@,
                final(leaf)@,
                old(internal)@.len() as int,
                old(leaf)@.len() as int,
            ),
            subtree(final(internal)@, final(leaf)@, p).covers(begin as int, end as int),
            subtree(final(internal)@, final(leaf)@, p).bounds(boxes(final(surfaces)@)),
            forall|axis_of: spec_fn(AABB) -> Axis| #[trigger]
                answers_axis(*max_axis, axis_of) ==> subtree(
                    final(internal)@,
                    final(leaf)@,
                    p,
                ).median_split(axis_of, midpoints(final(surfaces)@)),
        decreases end - begin,
    {
        let bounding = hull_of(surfaces, begin, end);
        if end - begin <= 2 {
            let idx = leaf.len();
            leaf.push(Leaf { begin, length: end - begin, bounding });
            proof {
                assert(old(leaf)@ =~= leaf@.take(old(leaf)@.len() as int));
                assert(leaf@ =~= old(leaf)@ + seq![leaf@[idx as int]]);
                assert(internal@.take(internal@.len() as int) =~= internal@);
            }
            ChildPointer::Leaf(idx)
        } else {
            let axis = max_axis(&bounding);
            let ghost s0 = surfaces@;
            sort_by_midpoint(surfaces, begin, end, axis);
            let ghost s1 = surfaces@;
            let mid = begin + (end - begin) / 2;

            let ghost i0 = internal@;
            let ghost l0 = leaf@;
            let ln = BVH::new_recur(surfaces, begin, mid, internal, leaf, max_axis);
            let ghost s2 = surfaces@;
            let ghost i1 = internal@;
            let ghost l1 = leaf@;
            let ghost left = subtree(i1, l1, ln);
            let rn = BVH::new_recur(surfaces, mid, end, internal, leaf, max_axis);
            let ghost s3 = surfaces@;
            let ghost i2 = internal@;
            let ghost l2 = leaf@;
            let ghost right = subtree(i2, l2, rn);

            let idx = internal.len();
            internal.push(Internal { left: ln, right: rn, bounding });
            let p = ChildPointer::Internal(idx);
            proof {
                let tree = subtree(internal@, l2, p);
                lemma_node_appended(i0, l0, i1, l1, i2, l2, ln, rn, bounding, idx);
                // The order of the surfaces.
                lemma_reordered_widens(s1, s2, begin as int, mid as int, begin as int, end as int);
                lemma_reordered_widens(s2, s3, mid as int, end as int, begin as int, end as int);
                lemma_reordered_twice(s0, s1, s2, begin as int, end as int);
                lemma_reordered_twice(s0, s2, s3, begin as int, end as int);
                // The boxes.
                lemma_covers_span(left, begin as int, mid as int);
                lemma_covers_span(right, mid as int, end as int);
                lemma_bounds_stays(left, begin as int, mid as int, boxes(s2), boxes(s3));
                lemma_reordered_hull(s0, s3, begin as int, end as int);
                // The split.
                assert forall|axis_of: spec_fn(AABB) -> Axis| #[trigger]
                    answers_axis(*max_axis, axis_of) implies tree.median_split(
                    axis_of,
                    midpoints(s3),
                ) by {
                    assert(axis_of(bounding) == axis);
                    lemma_node_split(
                        s1,
                        s2,
                        s3,
                        begin as int,
                        mid as int,
                        end as int,
                        left,
                        right,
                        bounding,
                        axis_of,
                    );
                }
            }
            p
        }
    }

    /// Builds the tree over `surfaces`, which it reorders.
    ///
    /// `max_axis` chooses, for the box of a run of more than two surfaces,
    /// the axis along which the run is sorted and split. One or two surfaces
    /// stay in their order.
    ///
    /// Fails with [`BuildError::Empty`] if, and only if, there are no
    /// surfaces.
    pub fn new<A: Fn(&AABB) -> Axis>(surfaces: Vec<Bounded<T>>, max_axis: A) -> (r: Result<
        BVH<T>,
        BuildError,
    >)
        requires
            forall|b: AABB| call_requires(max_axis, (&b,)),
        ensures
            surfaces@.len() == 0 <==> r is Err,
            r matches Err(e) ==> e == BuildError::Empty,
            r matches Ok(bvh) ==> {
                &&& bvh.wf()
                &&& bvh.spec_surfaces().len() == surfaces@.len()
                &&& bvh.spec_surfaces().to_multiset() == surfaces@.to_multiset()
                &&& surfaces@.len() <= 2 ==> bvh.spec_surfaces() == surfaces@
                &&& forall|axis_of: spec_fn(AABB) -> Axis| #[trigger]
                    answers_axis(max_axis, axis_of) ==> bvh@.median_split(
                        axis_of,
                        midpoints(bvh.spec_surfaces()),
                    )
            },
    {
        let n = surfaces.len();
        if n == 0 {
            return Err(BuildError::Empty);
        }
        let mut surfaces = surfaces;
        let ghost given = surfaces@;
        let mut internal: Vec<Internal> = Vec::new();
        let mut leaf: Vec<Leaf> = Vec::new();
        let root = BVH::new_recur(&mut surfaces, 0, n, &mut internal, &mut leaf, &max_axis);
        proof {
            assert(surfaces@.subrange(0, n as int) =~= surfaces@);
            assert(given.subrange(0, n as int) =~= given);
            assert(leaf@ =~= subtree(internal@, leaf@, root).leaves());
        }
        Ok(BVH { internal, leaf, surfaces, root })
    }

    /// The nearest hit of a ray: the key of the ray parameter, and the index
    /// of the surface in [`BVH::surfaces`].
    ///
    /// The ray is given by its two tests: `box_hit` says whether it passes
    /// through a box, and `surface_hit` gives the key of the ray parameter at
    /// which it meets a surface, if it does. The walk starts at the root. It
    /// leaves out everything below an inner node whose box the ray misses,
    /// and otherwise walks both children; in a leaf it tests every surface.
    /// Of two hits the one with the smaller key is nearer, and of two hits
    /// with the same key the one on the surface with the smaller index.
    pub fn ray_intersect<B: Fn(&AABB) -> bool, H: Fn(&T) -> Option<i32>>(
        &self,
        box_hit: B,
        surface_hit: H,
    ) -> (r: Option<(i32, usize)>)
        requires
            self.wf(),
            forall|b: AABB| call_requires(box_hit, (&b,)),
            forall|i: int|
                0 <= i < self.spec_surfaces().len() ==> call_requires(
                    surface_hit,
                    (&(#[trigger] self.spec_surfaces()[i]).shape,),
                ),
        ensures
            forall|box_answers: spec_fn(AABB) -> bool, hits: Seq<Option<i32>>|
                #[trigger] answers_box(box_hit, box_answers) && #[trigger] answers_hits(
                    surface_hit,
                    self.spec_surfaces(),
                    hits,
                ) ==> found(r) == self@.nearest(box_answers, hits),
            r matches Some((t, i)) ==> i < self.spec_surfaces().len() && call_ensures(
                surface_hit,
                (&self.spec_surfaces()[i as int].shape,),
                Some(t),
            ),
    {
        proof {
            self.lemma_root_walkable();
        }
        self.ray_intersect_walk(self.root, &box_hit, &surface_hit)
    }

    /// The nearest hit that a walk from the node behind `p` finds, as
    /// [`BVH::ray_intersect`] finds it from the root.
    pub fn ray_intersect_walk<B: Fn(&AABB) -> bool, H: Fn(&T) -> Option<i32>>(
        &self,
        p: ChildPointer,
        box_hit: &B,
        surface_hit: &H,
    ) -> (r: Option<(i32, usize)>)
        requires
            self.walkable(p),
            forall|b: AABB| call_requires(*box_hit, (&b,)),
            forall|i: int|
                0 <= i < self.spec_surfaces().len() ==> call_requires(
                    *surface_hit,
                    (&(#[trigger] self.spec_surfaces()[i]).shape,),
                ),
        ensures
            forall|box_answers: spec_fn(AABB) -> bool, hits: Seq<Option<i32>>|
                #[trigger] answers_box(*box_hit, box_answers) && #[trigger] answers_hits(
                    *surface_hit,
                    self.spec_surfaces(),
                    hits,
                ) ==> found(r) == self.below(p).nearest(box_answers, hits),
            r matches Some((t, i)) ==> i < self.spec_surfaces().len() && call_ensures(
                *surface_hit,
                (&self.spec_surfaces()[i as int].shape,),
                Some(t),
            ),
        decreases rank(p),
    {
        let ghost tree = self.below(p);
        proof {
            let (lo, hi) = choose|lo: int, hi: int| #[trigger]
                tree.covers(lo, hi) && hi <= self.spec_surfaces().len();
            lemma_covers_span(tree, lo, hi);
        }
        match p {
            ChildPointer::Internal(i) => {
                let node = &self.internal[i];
                proof {
                    assert(within(node.left, 0, i as int, 0, self.spec_leaves().len() as int));
                    assert(within(node.right, 0, i as int, 0, self.spec_leaves().len() as int));
                    let (lo, hi) = choose|lo: int, hi: int| #[trigger]
                        tree.covers(lo, hi) && hi <= self.spec_surfaces().len();
                    let mid = lo + (hi - lo) / 2;
                    let left = subtree(self.spec_internal(), self.spec_leaves(), node.left);
                    let right = subtree(self.spec_internal(), self.spec_leaves(), node.right);
                    assert(left.covers(lo, mid));
                    assert(right.covers(mid, hi));
                    lemma_covers_span(left, lo, mid);
                    lemma_covers_span(right, mid, hi);
                }
                if !box_hit(&node.bounding) {
                    return None;
                }
                let near_left = self.ray_intersect_walk(node.left, box_hit, surface_hit);
                let near_right = self.ray_intersect_walk(node.right, box_hit, surface_hit);
                match (near_left, near_right) {
                    (Some(a), Some(b)) => if b.0 < a.0 {
                        near_right
                    } else {
                        near_left
                    },
                    (Some(_), None) => near_left,
                    (None, _) => near_right,
                }
            },
            ChildPointer::Leaf(l) => {
                let leaf = &self.leaf[l];
                assert(tree == Tree::Leaf(*leaf) && tree.end() == leaf.end());
                assert(self.surfaces.len() <= usize::MAX);
                let end = leaf.begin + leaf.length;
                let mut best: Option<(i32, usize)> = None;
                let mut k: usize = leaf.begin;
                while k < end
                    invariant
                        leaf.begin <= k <= end <= self.spec_surfaces().len(),
                        end == leaf.end(),
                        self.below(p) == Tree::Leaf(*leaf),
                        forall|i: int|
                            0 <= i < self.spec_surfaces().len() ==> call_requires(
                                *surface_hit,
                                (&(#[trigger] self.spec_surfaces()[i]).shape,),
                            ),
                        forall|hits: Seq<Option<i32>>| #[trigger]
                            answers_hits(*surface_hit, self.spec_surfaces(), hits) ==> found(best)
                                == scan(hits, leaf.begin as int, k as int),
                        best matches Some((t, i)) ==> i < self.spec_surfaces().len() && call_ensures(
                            *surface_hit,
                            (&self.spec_surfaces()[i as int].shape,),
                            Some(t),
                        ),
                    decreases end - k,
                {
                    let ghost before = best;
                    let here = surface_hit(&self.surfaces[k].shape);
                    if let Some(t) = here {
                        match best {
                            Some((prior_t, _)) => {
                                if t < prior_t {
                                    best = Some((t, k));
                                }
                            },
                            None => {
                                best = Some((t, k));
                            },
                        }
                    }
                    proof {
                        assert forall|hits: Seq<Option<i32>>| #[trigger]
                            answers_hits(*surface_hit, self.spec_surfaces(), hits) implies found(best)
                            == scan(hits, leaf.begin as int, k + 1) by {
                            assert(hits[k as int] == here);
                            assert(found(before) == scan(hits, leaf.begin as int, k as int));
                            assert(found(best) == closer(found(before), candidate(hits, k as int)));
                        }
                    }
                    k += 1;
                }
                best
            },
        }
    }

    /// Whether the ray hits any surface that the walk of
    /// [`BVH::ray_intersect`] reaches. The walk is the same, and stops at
    /// the first hit.
    pub fn hits_any<B: Fn(&AABB) -> bool, H: Fn(&T) -> Option<i32>>(
        &self,
        box_hit: B,
        surface_hit: H,
    ) -> (r: bool)
        requires
            self.wf(),
            forall|b: AABB| call_requires(box_hit, (&b,)),
            forall|i: int|
                0 <= i < self.spec_surfaces().len() ==> call_requires(
                    surface_hit,
                    (&(#[trigger] self.spec_surfaces()[i]).shape,),
                ),
        ensures
            forall|box_answers: spec_fn(AABB) -> bool, hits: Seq<Option<i32>>|
                #[trigger] answers_box(box_hit, box_answers) && #[trigger] answers_hits(
                    surface_hit,
                    self.spec_surfaces(),
                    hits,
                ) ==> r == self@.any(box_answers, hits),
            r ==> exists|i: int, t: i32|
                0 <= i < self.spec_surfaces().len() && #[trigger] call_ensures(
                    surface_hit,
                    (&self.spec_surfaces()[i].shape,),
                    Some(t),
                ),
    {
        proof {
            self.lemma_root_walkable();
        }
        self.hits_any_walk(self.root, &box_hit, &surface_hit)
    }

    /// Whether a walk from the node behind `p` finds a hit, as
    /// [`BVH::hits_any`] finds it from the root.
    pub fn hits_any_walk<B: Fn(&AABB) -> bool, H: Fn(&T) -> Option<i32>>(
        &self,
        p: ChildPointer,
        box_hit: &B,
        surface_hit: &H,
    ) -> (r: bool)
        requires
            self.walkable(p),
            forall|b: AABB| call_requires(*box_hit, (&b,)),
            forall|i: int|
                0 <= i < self.spec_surfaces().len() ==> call_requires(
                    *surface_hit,
                    (&(#[trigger] self.spec_surfaces()[i]).shape,),
                ),
        ensures
            forall|box_answers: spec_fn(AABB) -> bool, hits: Seq<Option<i32>>|
                #[trigger] answers_box(*box_hit, box_answers) && #[trigger] answers_hits(
                    *surface_hit,
                    self.spec_surfaces(),
                    hits,
                ) ==> r == self.below(p).any(box_answers, hits),
            r ==> exists|i: int, t: i32|
                0 <= i < self.spec_surfaces().len() && #[trigger] call_ensures(
                    *surface_hit,
                    (&self.spec_surfaces()[i].shape,),
                    Some(t),
                ),
        decreases rank(p),
    {
        let ghost tree = self.below(p);
        proof {
            let (lo, hi) = choose|lo: int, hi: int| #[trigger]
                tree.covers(lo, hi) && hi <= self.spec_surfaces().len();
            lemma_covers_span(tree, lo, hi);
        }
        match p {
            ChildPointer::Internal(i) => {
                let node = &self.internal[i];
                proof {
                    assert(within(node.left, 0, i as int, 0, self.spec_leaves().len() as int));
                    assert(within(node.right, 0, i as int, 0, self.spec_leaves().len() as int));
                    let (lo, hi) = choose|lo: int, hi: int| #[trigger]
                        tree.covers(lo, hi) && hi <= self.spec_surfaces().len();
                    let mid = lo + (hi - lo) / 2;
                    let left = subtree(self.spec_internal(), self.spec_leaves(), node.left);
                    let right = subtree(self.spec_internal(), self.spec_leaves(), node.right);
                    assert(left.covers(lo, mid));
                    assert(right.covers(mid, hi));
                    lemma_covers_span(left, lo, mid);
                    lemma_covers_span(right, mid, hi);
                }
                if !box_hit(&node.bounding) {
                    return false;
                }
                self.hits_any_walk(node.left, box_hit, surface_hit) || self.hits_any_walk(
                    node.right,
                    box_hit,
                    surface_hit,
                )
            },
            ChildPointer::Leaf(l) => {
                let leaf = &self.leaf[l];
                assert(tree == Tree::Leaf(*leaf) && tree.end() == leaf.end());
                assert(self.surfaces.len() <= usize::MAX);
                let end = leaf.begin + leaf.length;
                let mut k: usize = leaf.begin;
                while k < end
                    invariant
                        leaf.begin <= k <= end <= self.spec_surfaces().len(),
                        end == leaf.end(),
                        self.below(p) == Tree::Leaf(*leaf),
                        forall|i: int|
                            0 <= i < self.spec_surfaces().len() ==> call_requires(
                                *surface_hit,
                                (&(#[trigger] self.spec_surfaces()[i]).shape,),
                            ),
                        forall|hits: Seq<Option<i32>>| #[trigger]
                            answers_hits(*surface_hit, self.spec_surfaces(), hits) ==> !any_hit(
                                hits,
                                leaf.begin as int,
                                k as int,
                            ),
                    decreases end - k,
                {
                    let here = surface_hit(&self.surfaces[k].shape);
                    if here.is_some() {
                        proof {
                            assert forall|hits: Seq<Option<i32>>| #[trigger]
                                answers_hits(*surface_hit, self.spec_surfaces(), hits) implies any_hit(
                                hits,
                                leaf.begin as int,
                                end as int,
                            ) by {
                                assert(hits[k as int] == here);
                                assert(leaf.begin <= k < end && hits[k as int] is Some);
                            }
                            assert(call_ensures(
                                *surface_hit,
                                (&self.spec_surfaces()[k as int].shape,),
                                Some(here->0),
                            ));
                        }
                        return true;
                    }
                    proof {
                        assert forall|hits: Seq<Option<i32>>| #[trigger]
                            answers_hits(*surface_hit, self.spec_surfaces(), hits) implies !any_hit(
                            hits,
                            leaf.begin as int,
                            k + 1,
                        ) by {
                            assert(hits[k as int] == here);
                            assert(!any_hit(hits, leaf.begin as int, k as int));
                        }
                    }
                    k += 1;
                }
                false
            },
        }
    }

    /// The number of surfaces.
    pub fn len(&self) -> (n: usize)
        ensures
            n == self.spec_surfaces().len(),
    {
        self.surfaces.len()
    }

    /// The surfaces, in the order that building the tree left them in.
    pub fn surfaces(&self) -> (surfaces: &Vec<Bounded<T>>)
        ensures
            surfaces@ == self.spec_surfaces(),
    {
        &self.surfaces
    }

    /// The leaves, from left to right.
    pub fn leaves(&self) -> (leaves: &Vec<Leaf>)
        ensures
            leaves@ == self.spec_leaves(),
    {
        &self.leaf
    }

    /// The inner nodes, each behind the nodes that it links to.
    pub fn internal(&self) -> (internal: &Vec<Internal>)
        ensures
            internal@ == self.spec_internal(),
    {
        &self.internal
    }

    /// The link to the root.
    pub fn root(&self) -> (root: ChildPointer)
        ensures
            root == self.spec_root(),
    {
        self.root
    }
}

impl<T> BVH<T> {
    /// A walk may start at the root of a tree that was built.
    pub proof fn lemma_root_walkable(&self)
        requires
            self.wf(),
        ensures
            self.walkable(self.spec_root()),
            self.below(self.spec_root()) == self@,
    {
        assert(self.below(self.spec_root()).covers(0, self.spec_surfaces().len() as int));
    }

    /// Where a walk may start at an inner node, it may start at each of its
    /// children, and the tree below the node is the node's box over the
    /// trees below the children.
    pub proof fn lemma_children_walkable(&self, i: usize)
        requires
            self.walkable(ChildPointer::Internal(i)),
        ensures
            self.walkable(self.spec_internal()[i as int].left),
            self.walkable(self.spec_internal()[i as int].right),
            self.below(ChildPointer::Internal(i)) == (Tree::Node {
                left: Box::new(self.below(self.spec_internal()[i as int].left)),
                right: Box::new(self.below(self.spec_internal()[i as int].right)),
                bounding: self.spec_internal()[i as int].bounding,
            }),
    {
        let p = ChildPointer::Internal(i);
        let node = self.spec_internal()[i as int];
        let tree = self.below(p);
        let (lo, hi) = choose|lo: int, hi: int| #[trigger]
            tree.covers(lo, hi) && hi <= self.spec_surfaces().len();
        let mid = lo + (hi - lo) / 2;
        assert(within(node.left, 0, i as int, 0, self.spec_leaves().len() as int));
        assert(within(node.right, 0, i as int, 0, self.spec_leaves().len() as int));
        assert(self.below(node.left).covers(lo, mid) && mid <= self.spec_surfaces().len());
        assert(self.below(node.right).covers(mid, hi) && hi <= self.spec_surfaces().len());
    }

    /// The tree below a link to a leaf is that leaf.
    pub proof fn lemma_leaf_below(&self, l: usize)
        requires
            self.walkable(ChildPointer::Leaf(l)),
        ensures
            self.below(ChildPointer::Leaf(l)) == Tree::Leaf(self.spec_leaves()[l as int]),
    {
    }

    /// The leaves of a tree that was built share out its surfaces: they lie
    /// end to end from the first surface to the last, every surface belongs
    /// to a leaf, none belongs to two leaves, and no leaf holds more than
    /// two.
    pub proof fn lemma_leaves_share_out_surfaces(self)
        requires
            self.wf(),
        ensures
            tiles(self.spec_leaves(), 0, self.spec_surfaces().len() as int),
            forall|k: int|
                0 <= k < self.spec_leaves().len() ==> (#[trigger] self.spec_leaves()[k]).length
                    <= 2,
            forall|i: int|
                0 <= i < self.spec_surfaces().len() ==> #[trigger] held(self.spec_leaves(), i),
            forall|i: int, a: int, b: int|
                0 <= a < self.spec_leaves().len() && 0 <= b < self.spec_leaves().len()
                    && #[trigger] self.spec_leaves()[a].holds(i)
                    && #[trigger] self.spec_leaves()[b].holds(i) ==> a == b,
    {
        let n = self.spec_surfaces().len() as int;
        lemma_leaves_tile(self@, 0, n);
        lemma_leaves_partition(self@, 0, n);
    }

    /// The walk of a tree that was built finds what a scan of all its
    /// surfaces finds, from the first to the last: the least ray parameter,
    /// on the first surface that has it. It does so if and only if it comes
    /// to that surface: if the ray passes through the box of every inner node
    /// above it.
    pub proof fn lemma_walk_is_scan_iff_reached(
        self,
        box_answers: spec_fn(AABB) -> bool,
        hits: Seq<Option<i32>>,
    )
        requires
            self.wf(),
        ensures
            self@.nearest(box_answers, hits) == scan(hits, 0, self.spec_surfaces().len() as int)
                <==> (scan(hits, 0, self.spec_surfaces().len() as int) matches Some(found)
                ==> self@.reaches(box_answers, found.1)),
    {
        lemma_nearest_is_scan_iff_reached(
            self@,
            0,
            self.spec_surfaces().len() as int,
            box_answers,
            hits,
        );
    }

    /// Where the box answers never hide a hit, the walk of a tree that was
    /// built finds what a scan of all its surfaces finds.
    pub proof fn lemma_walk_is_scan(self, box_answers: spec_fn(AABB) -> bool, hits: Seq<Option<i32>>)
        requires
            self.wf(),
            self@.conservative(box_answers, hits),
        ensures
            self@.nearest(box_answers, hits) == scan(hits, 0, self.spec_surfaces().len() as int),
    {
        lemma_nearest_is_scan(self@, 0, self.spec_surfaces().len() as int, box_answers, hits);
    }

    /// The walk that stops at the first hit says yes exactly where the walk
    /// for the nearest hit finds one, whatever the answers are.
    pub proof fn lemma_any_iff_nearest(self, box_answers: spec_fn(AABB) -> bool, hits: Seq<Option<i32>>)
        ensures
            self@.any(box_answers, hits) == self@.nearest(box_answers, hits) is Some,
    {
        crate::tree::lemma_any_iff_nearest(self@, box_answers, hits);
    }
}

} // verus!
