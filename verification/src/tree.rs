//! The tree as a mathematical value, and what holds of it.
//!
//! A ray meets the tree through two tables of answers: `box_hit` says for each
//! box whether the ray passes through it, and `hits` holds, for the surface at
//! each index, the key of the ray parameter at which the ray meets it, if it
//! does.
use vstd::prelude::*;
use vstd::arithmetic::power2::{pow2, lemma_pow2_unfold, lemma2_to64};
use crate::aabb::{AABB, Axis, Point3, lemma_hull_of_concat, lemma_hull_encloses};
use crate::node::Leaf;

verus! {

/// A candidate for the nearest hit: the key of the ray parameter and the
/// index of the surface.
pub type Candidate = Option<(i32, int)>;

/// The candidate that the surface at index `i` gives.
pub open spec fn candidate(hits: Seq<Option<i32>>, i: int) -> Candidate {
    match hits[i] {
        Some(t) => Some((t, i)),
        None => None,
    }
}

/// The nearer of two candidates. The first one stays unless the second is
/// strictly nearer.
pub open spec fn closer(first: Candidate, second: Candidate) -> Candidate {
    match (first, second) {
        (Some(a), Some(b)) => if b.0 < a.0 {
            second
        } else {
            first
        },
        (Some(_), None) => first,
        (None, _) => second,
    }
}

/// The nearest hit among the surfaces at `lo..hi`, found by testing each in
/// turn, from `lo` upwards.
pub open spec fn scan(hits: Seq<Option<i32>>, lo: int, hi: int) -> Candidate
    decreases hi - lo,
{
    if hi <= lo {
        None
    } else {
        closer(scan(hits, lo, hi - 1), candidate(hits, hi - 1))
    }
}

/// Whether any surface at `lo..hi` is hit.
pub open spec fn any_hit(hits: Seq<Option<i32>>, lo: int, hi: int) -> bool {
    exists|i: int| lo <= i < hi && (#[trigger] hits[i]) is Some
}

/// Whether the midpoints at `lo..hi` are in ascending order along `axis`.
pub open spec fn ascending(midpoints: Seq<Point3>, axis: Axis, lo: int, hi: int) -> bool {
    forall|i: int, j: int|
        lo <= i <= j < hi ==> (#[trigger] midpoints[i]).coord(axis) <= (
        #[trigger] midpoints[j]).coord(axis)
}

/// A bounding volume hierarchy: a binary tree whose leaves are runs of
/// surfaces.
pub enum Tree {
    Leaf(Leaf),
    Node { left: Box<Tree>, right: Box<Tree>, bounding: AABB },
}

impl Tree {
    /// The box of the root.
    pub open spec fn bounding(self) -> AABB {
        match self {
            Tree::Leaf(leaf) => leaf.bounding,
            Tree::Node { bounding, .. } => bounding,
        }
    }

    /// The index of the first surface below this node.
    pub open spec fn begin(self) -> int
        decreases self,
    {
        match self {
            Tree::Leaf(leaf) => leaf.begin as int,
            Tree::Node { left, .. } => left.begin(),
        }
    }

    /// The index just past the last surface below this node.
    pub open spec fn end(self) -> int
        decreases self,
    {
        match self {
            Tree::Leaf(leaf) => leaf.end(),
            Tree::Node { right, .. } => right.end(),
        }
    }

    /// The number of inner nodes on the longest way from the root to a leaf.
    pub open spec fn height(self) -> nat
        decreases self,
    {
        match self {
            Tree::Leaf(_) => 0,
            Tree::Node { left, right, .. } => {
                let l = left.height();
                let r = right.height();
                if l < r {
                    r + 1
                } else {
                    l + 1
                }
            },
        }
    }

    /// The number of inner nodes.
    pub open spec fn inner_count(self) -> nat
        decreases self,
    {
        match self {
            Tree::Leaf(_) => 0,
            Tree::Node { left, right, .. } => left.inner_count() + right.inner_count() + 1,
        }
    }

    /// The leaves, from left to right.
    pub open spec fn leaves(self) -> Seq<Leaf>
        decreases self,
    {
        match self {
            Tree::Leaf(leaf) => seq![leaf],
            Tree::Node { left, right, .. } => left.leaves() + right.leaves(),
        }
    }

    /// Whether the tree is the median split of the surfaces at `lo..hi`: a
    /// run of at most two surfaces is a leaf, and a longer run is an inner
    /// node whose left child takes the first half of the run, rounded down,
    /// and whose right child takes the rest.
    pub open spec fn covers(self, lo: int, hi: int) -> bool
        decreases self,
    {
        match self {
            Tree::Leaf(leaf) => 0 <= lo <= hi && hi - lo <= 2 && leaf.begin == lo && leaf.end()
                == hi,
            Tree::Node { left, right, .. } => {
                let mid = lo + (hi - lo) / 2;
                0 <= lo && hi - lo > 2 && left.covers(lo, mid) && right.covers(mid, hi)
            },
        }
    }

    /// Whether the box of every node is the hull of the boxes of the surfaces
    /// below it, `boxes` being the boxes of all surfaces by index.
    pub open spec fn bounds(self, boxes: Seq<AABB>) -> bool
        decreases self,
    {
        &&& self.bounding() == AABB::hull(boxes.subrange(self.begin(), self.end()))
        &&& match self {
            Tree::Leaf(_) => true,
            Tree::Node { left, right, .. } => left.bounds(boxes) && right.bounds(boxes),
        }
    }

    /// Whether every inner node holds its surfaces as sorting them by their
    /// midpoints along the axis that `axis_of` gives for the node's box, and
    /// cutting the run in half, leaves them: no midpoint on the left lies
    /// beyond one on the right, and the run of a child that is a leaf is in
    /// ascending order. The run of a child that is an inner node is in the
    /// order in which that node holds it. `midpoints` holds the midpoints of
    /// all surfaces by index.
    pub open spec fn median_split(self, axis_of: spec_fn(AABB) -> Axis, midpoints: Seq<Point3>) -> bool
        decreases self,
    {
        match self {
            Tree::Leaf(_) => true,
            Tree::Node { left, right, bounding } => {
                &&& forall|i: int, j: int|
                    left.begin() <= i < left.end() && right.begin() <= j < right.end() ==> (
                    #[trigger] midpoints[i]).coord(axis_of(bounding)) <= (
                    #[trigger] midpoints[j]).coord(axis_of(bounding))
                &&& *left is Leaf ==> ascending(
                    midpoints,
                    axis_of(bounding),
                    left.begin(),
                    left.end(),
                )
                &&& *right is Leaf ==> ascending(
                    midpoints,
                    axis_of(bounding),
                    right.begin(),
                    right.end(),
                )
                &&& left.median_split(axis_of, midpoints)
                &&& right.median_split(axis_of, midpoints)
            },
        }
    }

    /// The nearest hit that a walk from the root finds. A subtree is walked
    /// only if the ray passes through the box of its root; below an inner
    /// node both children are walked; in a leaf every surface is tested.
    pub open spec fn nearest(self, box_hit: spec_fn(AABB) -> bool, hits: Seq<Option<i32>>) -> Candidate
        decreases self,
    {
        match self {
            Tree::Leaf(leaf) => scan(hits, leaf.begin as int, leaf.end()),
            Tree::Node { left, right, bounding } => if box_hit(bounding) {
                closer(left.nearest(box_hit, hits), right.nearest(box_hit, hits))
            } else {
                None
            },
        }
    }

    /// Whether a walk from the root finds any hit.
    pub open spec fn any(self, box_hit: spec_fn(AABB) -> bool, hits: Seq<Option<i32>>) -> bool
        decreases self,
    {
        match self {
            Tree::Leaf(leaf) => any_hit(hits, leaf.begin as int, leaf.end()),
            Tree::Node { left, right, bounding } => box_hit(bounding) && (left.any(box_hit, hits)
                || right.any(box_hit, hits)),
        }
    }

    /// Whether a walk from the root comes to the surface at index `i`: the
    /// ray passes through the box of every inner node above it.
    pub open spec fn reaches(self, box_hit: spec_fn(AABB) -> bool, i: int) -> bool
        decreases self,
    {
        match self {
            Tree::Leaf(_) => true,
            Tree::Node { left, right, bounding } => box_hit(bounding) && if i < left.end() {
                left.reaches(box_hit, i)
            } else {
                right.reaches(box_hit, i)
            },
        }
    }

    /// Whether the box answers never hide a hit: wherever the ray misses the
    /// box of an inner node, it misses every surface below that node.
    pub open spec fn conservative(self, box_hit: spec_fn(AABB) -> bool, hits: Seq<Option<i32>>) -> bool
        decreases self,
    {
        match self {
            Tree::Leaf(_) => true,
            Tree::Node { left, right, bounding } => {
                &&& box_hit(bounding) || !any_hit(hits, self.begin(), self.end())
                &&& left.conservative(box_hit, hits)
                &&& right.conservative(box_hit, hits)
            },
        }
    }
}

/// Whether the leaves lie end to end from `lo` to `hi`: the first begins at
/// `lo`, each next one begins where the one before it ends, and the last ends
/// at `hi`.
pub open spec fn tiles(leaves: Seq<Leaf>, lo: int, hi: int) -> bool {
    &&& leaves.len() > 0
    &&& leaves[0].begin == lo
    &&& leaves[leaves.len() - 1].end() == hi
    &&& forall|k: int| 0 <= k < leaves.len() - 1 ==> (#[trigger] leaves[k]).end() == leaves[k + 1].begin
}

/// Whether some leaf holds the surface at index `i`.
pub open spec fn held(leaves: Seq<Leaf>, i: int) -> bool {
    exists|k: int| 0 <= k < leaves.len() && (#[trigger] leaves[k]).holds(i)
}

/// Taking the nearer of three candidates may be grouped either way.
pub proof fn lemma_closer_associative(a: Candidate, b: Candidate, c: Candidate)
    ensures
        closer(closer(a, b), c) == closer(a, closer(b, c)),
{
}

/// A scan may be cut in two at any index: the nearest hit of the whole run
/// is the nearer of the nearest hits of its two parts.
pub proof fn lemma_scan_split(hits: Seq<Option<i32>>, lo: int, mid: int, hi: int)
    requires
        lo <= mid <= hi,
    ensures
        scan(hits, lo, hi) == closer(scan(hits, lo, mid), scan(hits, mid, hi)),
    decreases hi - mid,
{
    if mid < hi {
        lemma_scan_split(hits, lo, mid, hi - 1);
        lemma_closer_associative(
            scan(hits, lo, mid),
            scan(hits, mid, hi - 1),
            candidate(hits, hi - 1),
        );
    }
}

/// A scan finds the first of the nearest hits: no surface of the run is hit
/// nearer, and none before the one found is hit as near. It finds nothing
/// only where no surface of the run is hit.
pub proof fn lemma_scan_is_first_minimum(hits: Seq<Option<i32>>, lo: int, hi: int)
    ensures
        scan(hits, lo, hi) is None <==> !any_hit(hits, lo, hi),
        scan(hits, lo, hi) matches Some(found) ==> {
            &&& lo <= found.1 < hi
            &&& hits[found.1] == Some(found.0)
            &&& forall|j: int|
                lo <= j < hi && (#[trigger] hits[j]) is Some ==> found.0 <= hits[j]->0 && (hits[j]->0
                    == found.0 ==> found.1 <= j)
        },
    decreases hi - lo,
{
    if lo < hi {
        lemma_scan_is_first_minimum(hits, lo, hi - 1);
        let before = scan(hits, lo, hi - 1);
        if before is None {
            if hits[hi - 1] is None {
                assert forall|i: int| lo <= i < hi implies !((#[trigger] hits[i]) is Some) by {
                    if i < hi - 1 {
                        assert(!any_hit(hits, lo, hi - 1));
                    }
                }
            } else {
                assert(hits[hi - 1] is Some);
                assert forall|j: int| lo <= j < hi && (#[trigger] hits[j]) is Some implies j == hi
                    - 1 by {
                    if j < hi - 1 {
                        assert(!any_hit(hits, lo, hi - 1));
                    }
                }
            }
        } else {
            let found = before->0;
            assert(hits[found.1] is Some);
        }
    }
}

/// A tree has one leaf more than it has inner nodes.
pub proof fn lemma_one_more_leaf(tree: Tree)
    ensures
        tree.leaves().len() == tree.inner_count() + 1,
    decreases tree,
{
    match tree {
        Tree::Leaf(_) => {},
        Tree::Node { left, right, .. } => {
            lemma_one_more_leaf(*left);
            lemma_one_more_leaf(*right);
        },
    }
}

/// A tree that covers a run begins and ends where the run does.
pub proof fn lemma_covers_span(tree: Tree, lo: int, hi: int)
    requires
        tree.covers(lo, hi),
    ensures
        tree.begin() == lo,
        tree.end() == hi,
        0 <= lo <= hi,
    decreases tree,
{
    match tree {
        Tree::Leaf(_) => {},
        Tree::Node { left, right, .. } => {
            let mid = lo + (hi - lo) / 2;
            lemma_covers_span(*left, lo, mid);
            lemma_covers_span(*right, mid, hi);
        },
    }
}

/// What a walk finds is a hit that the walk comes to: a surface of the run
/// below the root, hit at the ray parameter found, with the ray passing
/// through every box above it.
pub proof fn lemma_nearest_is_reached(
    tree: Tree,
    lo: int,
    hi: int,
    box_hit: spec_fn(AABB) -> bool,
    hits: Seq<Option<i32>>,
)
    requires
        tree.covers(lo, hi),
    ensures
        tree.nearest(box_hit, hits) matches Some(found) ==> {
            &&& lo <= found.1 < hi
            &&& hits[found.1] == Some(found.0)
            &&& tree.reaches(box_hit, found.1)
        },
    decreases tree,
{
    match tree {
        Tree::Leaf(_) => {
            lemma_scan_is_first_minimum(hits, lo, hi);
        },
        Tree::Node { left, right, .. } => {
            let mid = lo + (hi - lo) / 2;
            lemma_covers_span(*left, lo, mid);
            lemma_covers_span(*right, mid, hi);
            lemma_nearest_is_reached(*left, lo, mid, box_hit, hits);
            lemma_nearest_is_reached(*right, mid, hi, box_hit, hits);
        },
    }
}

/// A walk of the tree finds what a scan of all its surfaces finds, the same
/// ray parameter on the same surface, if and only if it comes to the surface
/// that the scan finds: if the ray passes through every box above that
/// surface. Where the scan finds nothing, the walk finds nothing.
pub proof fn lemma_nearest_is_scan_iff_reached(
    tree: Tree,
    lo: int,
    hi: int,
    box_hit: spec_fn(AABB) -> bool,
    hits: Seq<Option<i32>>,
)
    requires
        tree.covers(lo, hi),
    ensures
        tree.nearest(box_hit, hits) == scan(hits, lo, hi) <==> (scan(hits, lo, hi) matches Some(
            found,
        ) ==> tree.reaches(box_hit, found.1)),
    decreases tree,
{
    let whole = scan(hits, lo, hi);
    lemma_nearest_is_reached(tree, lo, hi, box_hit, hits);
    lemma_scan_is_first_minimum(hits, lo, hi);
    match tree {
        Tree::Leaf(_) => {},
        Tree::Node { left, right, bounding } => {
            let mid = lo + (hi - lo) / 2;
            lemma_covers_span(*left, lo, mid);
            lemma_covers_span(*right, mid, hi);
            lemma_scan_split(hits, lo, mid, hi);
            lemma_scan_is_first_minimum(hits, lo, mid);
            lemma_scan_is_first_minimum(hits, mid, hi);
            lemma_nearest_is_reached(*left, lo, mid, box_hit, hits);
            lemma_nearest_is_reached(*right, mid, hi, box_hit, hits);
            lemma_nearest_is_scan_iff_reached(*left, lo, mid, box_hit, hits);
            lemma_nearest_is_scan_iff_reached(*right, mid, hi, box_hit, hits);
            if whole is None {
                assert(!any_hit(hits, lo, hi));
                if tree.nearest(box_hit, hits) is Some {
                    let found = tree.nearest(box_hit, hits)->0;
                    assert(hits[found.1] is Some);
                }
            } else {
                let found = whole->0;
                if tree.reaches(box_hit, found.1) {
                    let near_left = left.nearest(box_hit, hits);
                    let near_right = right.nearest(box_hit, hits);
                    if found.1 < mid {
                        assert(scan(hits, lo, mid) == whole);
                        assert(near_left == whole);
                        if near_right is Some {
                            let other = near_right->0;
                            assert(hits[other.1] is Some);
                        }
                    } else {
                        assert(scan(hits, mid, hi) == whole);
                        assert(near_right == whole);
                        if near_left is Some {
                            let other = near_left->0;
                            assert(hits[other.1] is Some);
                        }
                    }
                }
            }
        },
    }
}

/// Answers that never hide a hit let the walk come to every surface that is
/// hit.
pub proof fn lemma_conservative_reaches(
    tree: Tree,
    lo: int,
    hi: int,
    box_hit: spec_fn(AABB) -> bool,
    hits: Seq<Option<i32>>,
    i: int,
)
    requires
        tree.covers(lo, hi),
        tree.conservative(box_hit, hits),
        lo <= i < hi,
        hits[i] is Some,
    ensures
        tree.reaches(box_hit, i),
    decreases tree,
{
    match tree {
        Tree::Leaf(_) => {},
        Tree::Node { left, right, .. } => {
            let mid = lo + (hi - lo) / 2;
            lemma_covers_span(*left, lo, mid);
            lemma_covers_span(*right, mid, hi);
            if i < mid {
                lemma_conservative_reaches(*left, lo, mid, box_hit, hits, i);
            } else {
                lemma_conservative_reaches(*right, mid, hi, box_hit, hits, i);
            }
        },
    }
}

/// Where the box answers never hide a hit, a walk of the tree finds what a
/// scan of all its surfaces finds: the same ray parameter on the same
/// surface.
pub proof fn lemma_nearest_is_scan(
    tree: Tree,
    lo: int,
    hi: int,
    box_hit: spec_fn(AABB) -> bool,
    hits: Seq<Option<i32>>,
)
    requires
        tree.covers(lo, hi),
        tree.conservative(box_hit, hits),
    ensures
        tree.nearest(box_hit, hits) == scan(hits, lo, hi),
{
    lemma_nearest_is_scan_iff_reached(tree, lo, hi, box_hit, hits);
    lemma_scan_is_first_minimum(hits, lo, hi);
    if scan(hits, lo, hi) is Some {
        let found = scan(hits, lo, hi)->0;
        lemma_conservative_reaches(tree, lo, hi, box_hit, hits, found.1);
    }
}

/// A walk that stops at the first hit says yes exactly where the walk for
/// the nearest hit finds one.
pub proof fn lemma_any_iff_nearest(tree: Tree, box_hit: spec_fn(AABB) -> bool, hits: Seq<Option<i32>>)
    ensures
        tree.any(box_hit, hits) == tree.nearest(box_hit, hits) is Some,
    decreases tree,
{
    match tree {
        Tree::Leaf(leaf) => {
            lemma_scan_is_first_minimum(hits, leaf.begin as int, leaf.end());
        },
        Tree::Node { left, right, .. } => {
            lemma_any_iff_nearest(*left, box_hit, hits);
            lemma_any_iff_nearest(*right, box_hit, hits);
        },
    }
}

/// The leaves of a tree that covers a run lie end to end from the start of
/// the run to its end, and none holds more than two surfaces.
pub proof fn lemma_leaves_tile(tree: Tree, lo: int, hi: int)
    requires
        tree.covers(lo, hi),
    ensures
        tiles(tree.leaves(), lo, hi),
        forall|k: int| 0 <= k < tree.leaves().len() ==> (#[trigger] tree.leaves()[k]).length <= 2,
    decreases tree,
{
    match tree {
        Tree::Leaf(_) => {},
        Tree::Node { left, right, .. } => {
            let mid = lo + (hi - lo) / 2;
            lemma_leaves_tile(*left, lo, mid);
            lemma_leaves_tile(*right, mid, hi);
            let l = left.leaves();
            let r = right.leaves();
            let all = tree.leaves();
            assert(all == l + r);
            assert forall|k: int| 0 <= k < all.len() - 1 implies (#[trigger] all[k]).end() == all[k
                + 1].begin by {
                if k < l.len() - 1 {
                    assert(all[k] == l[k] && all[k + 1] == l[k + 1]);
                } else if k == l.len() - 1 {
                    assert(all[k] == l[k] && all[k + 1] == r[0]);
                } else {
                    assert(all[k] == r[k - l.len()] && all[k + 1] == r[k - l.len() + 1]);
                }
            }
            assert forall|k: int| 0 <= k < all.len() implies (#[trigger] all[k]).length <= 2 by {
                if k < l.len() {
                    assert(all[k] == l[k]);
                } else {
                    assert(all[k] == r[k - l.len()]);
                }
            }
        },
    }
}

/// In leaves that lie end to end, a later leaf begins at or after the end of
/// an earlier one.
pub proof fn lemma_tiles_in_order(leaves: Seq<Leaf>, lo: int, hi: int, a: int, b: int)
    requires
        tiles(leaves, lo, hi),
        0 <= a < b < leaves.len(),
    ensures
        lo <= leaves[a].begin,
        leaves[a].end() <= leaves[b].begin,
        leaves[b].end() <= hi,
    decreases b - a,
{
    lemma_tiles_reach(leaves, lo, hi, a);
    lemma_tiles_reach(leaves, lo, hi, b);
    if a + 1 < b {
        lemma_tiles_in_order(leaves, lo, hi, a + 1, b);
        assert(leaves[a].end() == leaves[a + 1].begin);
    } else {
        assert(leaves[a].end() == leaves[a + 1].begin);
    }
}

/// Leaves that lie end to end from `lo` to `hi` all lie within `lo..hi`.
pub proof fn lemma_tiles_reach(leaves: Seq<Leaf>, lo: int, hi: int, k: int)
    requires
        tiles(leaves, lo, hi),
        0 <= k < leaves.len(),
    ensures
        lo <= leaves[k].begin,
        leaves[k].end() <= hi,
{
    lemma_tiles_from_start(leaves, lo, hi, k);
    lemma_tiles_to_end(leaves, lo, hi, k);
}

proof fn lemma_tiles_from_start(leaves: Seq<Leaf>, lo: int, hi: int, k: int)
    requires
        tiles(leaves, lo, hi),
        0 <= k < leaves.len(),
    ensures
        lo <= leaves[k].begin,
    decreases k,
{
    if k > 0 {
        lemma_tiles_from_start(leaves, lo, hi, k - 1);
        assert(leaves[k - 1].end() == leaves[k - 1 + 1].begin);
    }
}

proof fn lemma_tiles_to_end(leaves: Seq<Leaf>, lo: int, hi: int, k: int)
    requires
        tiles(leaves, lo, hi),
        0 <= k < leaves.len(),
    ensures
        leaves[k].end() <= hi,
    decreases leaves.len() - k,
{
    if k < leaves.len() - 1 {
        lemma_tiles_to_end(leaves, lo, hi, k + 1);
        assert(leaves[k].end() == leaves[k + 1].begin);
    }
}

/// The leaves of a tree that covers a run share out the run: every leaf
/// lies within the run, every index of the run belongs to a leaf, and no
/// index belongs to two leaves.
pub proof fn lemma_leaves_partition(tree: Tree, lo: int, hi: int)
    requires
        tree.covers(lo, hi),
    ensures
        forall|k: int|
            0 <= k < tree.leaves().len() ==> lo <= (#[trigger] tree.leaves()[k]).begin
                && tree.leaves()[k].end() <= hi,
        forall|i: int| lo <= i < hi ==> #[trigger] held(tree.leaves(), i),
        forall|i: int, a: int, b: int|
            0 <= a < tree.leaves().len() && 0 <= b < tree.leaves().len()
                && #[trigger] tree.leaves()[a].holds(i) && #[trigger] tree.leaves()[b].holds(i)
                ==> a == b,
{
    let leaves = tree.leaves();
    lemma_leaves_tile(tree, lo, hi);
    assert forall|k: int| 0 <= k < leaves.len() implies lo <= (#[trigger] leaves[k]).begin
        && leaves[k].end() <= hi by {
        lemma_tiles_reach(leaves, lo, hi, k);
    }
    assert forall|i: int| lo <= i < hi implies #[trigger] held(leaves, i) by {
        let k = lemma_tiles_find(leaves, lo, hi, i, leaves.len() - 1);
        assert(leaves[k].holds(i));
    }
    assert forall|i: int, a: int, b: int|
        0 <= a < leaves.len() && 0 <= b < leaves.len() && #[trigger] leaves[a].holds(i)
            && #[trigger] leaves[b].holds(i) implies a == b by {
        if a < b {
            lemma_tiles_in_order(leaves, lo, hi, a, b);
        } else if b < a {
            lemma_tiles_in_order(leaves, lo, hi, b, a);
        }
    }
}

proof fn lemma_tiles_find(leaves: Seq<Leaf>, lo: int, hi: int, i: int, last: int) -> (k: int)
    requires
        tiles(leaves, lo, hi),
        0 <= last < leaves.len(),
        lo <= i < leaves[last].end(),
    ensures
        0 <= k <= last,
        leaves[k].holds(i),
    decreases last,
{
    if leaves[last].begin <= i {
        last
    } else {
        assert(last > 0);
        assert(leaves[last - 1].end() == leaves[last - 1 + 1].begin);
        lemma_tiles_find(leaves, lo, hi, i, last - 1)
    }
}

/// In a tree that covers a run and bounds its surfaces, the box of an inner
/// node is the union of the boxes of its two children.
pub proof fn lemma_node_box_is_union(tree: Tree, lo: int, hi: int, boxes: Seq<AABB>)
    requires
        tree.covers(lo, hi),
        tree.bounds(boxes),
        hi <= boxes.len(),
    ensures
        tree matches Tree::Node { left, right, bounding } ==> bounding == left.bounding().union(
            right.bounding(),
        ),
{
    match tree {
        Tree::Leaf(_) => {},
        Tree::Node { left, right, .. } => {
            let mid = lo + (hi - lo) / 2;
            lemma_covers_span(*left, lo, mid);
            lemma_covers_span(*right, mid, hi);
            assert(boxes.subrange(lo, hi) =~= boxes.subrange(lo, mid) + boxes.subrange(mid, hi));
            assert(left.bounds(boxes) && right.bounds(boxes));
            lemma_hull_of_concat(boxes.subrange(lo, mid), boxes.subrange(mid, hi));
        },
    }
}

/// In a tree that bounds its surfaces, the box of the root encloses the box
/// of every surface below it, and the origin.
pub proof fn lemma_root_box_encloses(tree: Tree, boxes: Seq<AABB>, i: int)
    requires
        tree.bounds(boxes),
        0 <= tree.begin() <= i < tree.end() <= boxes.len(),
    ensures
        tree.bounding().encloses(boxes[i]),
        tree.bounding().encloses(AABB::spec_zero()),
{
    let run = boxes.subrange(tree.begin(), tree.end());
    lemma_hull_encloses(run);
    assert(run[i - tree.begin()] == boxes[i]);
}

/// The least number of halvings that bring a run of `n` surfaces down to
/// runs of at most two.
pub open spec fn halvings(n: int) -> nat
    decreases n,
{
    if n <= 2 {
        0
    } else {
        halvings(n - n / 2) + 1
    }
}

/// A tree that covers a run of `n` surfaces is as high as `n` needs
/// halvings.
pub proof fn lemma_height(tree: Tree, lo: int, hi: int)
    requires
        tree.covers(lo, hi),
    ensures
        tree.height() == halvings(hi - lo),
    decreases tree,
{
    match tree {
        Tree::Leaf(_) => {},
        Tree::Node { left, right, .. } => {
            let n = hi - lo;
            let mid = lo + n / 2;
            lemma_height(*left, lo, mid);
            lemma_height(*right, mid, hi);
            lemma_halvings_monotone(n / 2, n - n / 2);
        },
    }
}

/// A run of more than two surfaces needs `h` halvings where `2^h < n <=
/// 2^(h+1)`: the logarithm of `n / 2` to the base two, rounded up.
pub proof fn lemma_halvings_is_log(n: int)
    requires
        n > 2,
    ensures
        pow2(halvings(n)) < n <= 2 * pow2(halvings(n)),
    decreases n,
{
    let m = n - n / 2;
    let h = halvings(m);
    lemma_pow2_unfold(h + 1);
    if m > 2 {
        lemma_halvings_is_log(m);
        assert(pow2(h) < m && m <= 2 * pow2(h));
        assert(h > 0);
        lemma_pow2_unfold(h);
        assert(pow2(h + 1) == 4 * pow2((h - 1) as nat));
    } else {
        lemma2_to64();
    }
}

/// A longer run needs no fewer halvings.
pub proof fn lemma_halvings_monotone(a: int, b: int)
    requires
        a <= b,
    ensures
        halvings(a) <= halvings(b),
    decreases b,
{
    if a > 2 {
        lemma_halvings_monotone(a - a / 2, b - b / 2);
    }
}

/// Whether a tree bounds its surfaces depends only on the boxes of the
/// surfaces below it.
pub proof fn lemma_bounds_stays(tree: Tree, lo: int, hi: int, boxes: Seq<AABB>, other: Seq<AABB>)
    requires
        tree.covers(lo, hi),
        tree.bounds(boxes),
        hi <= boxes.len(),
        hi <= other.len(),
        forall|i: int| lo <= i < hi ==> boxes[i] == other[i],
    ensures
        tree.bounds(other),
    decreases tree,
{
    lemma_covers_span(tree, lo, hi);
    assert(boxes.subrange(lo, hi) =~= other.subrange(lo, hi));
    match tree {
        Tree::Leaf(_) => {},
        Tree::Node { left, right, .. } => {
            let mid = lo + (hi - lo) / 2;
            lemma_bounds_stays(*left, lo, mid, boxes, other);
            lemma_bounds_stays(*right, mid, hi, boxes, other);
        },
    }
}

/// Whether a tree splits its surfaces by their midpoints depends only on the
/// midpoints of the surfaces below it.
pub proof fn lemma_median_split_stays(
    tree: Tree,
    lo: int,
    hi: int,
    axis_of: spec_fn(AABB) -> Axis,
    midpoints: Seq<Point3>,
    other: Seq<Point3>,
)
    requires
        tree.covers(lo, hi),
        tree.median_split(axis_of, midpoints),
        hi <= midpoints.len(),
        hi <= other.len(),
        forall|i: int| lo <= i < hi ==> midpoints[i] == other[i],
    ensures
        tree.median_split(axis_of, other),
    decreases tree,
{
    match tree {
        Tree::Leaf(_) => {},
        Tree::Node { left, right, bounding } => {
            let mid = lo + (hi - lo) / 2;
            lemma_covers_span(*left, lo, mid);
            lemma_covers_span(*right, mid, hi);
            lemma_median_split_stays(*left, lo, mid, axis_of, midpoints, other);
            lemma_median_split_stays(*right, mid, hi, axis_of, midpoints, other);
            let axis = axis_of(bounding);
            assert forall|i: int, j: int|
                left.begin() <= i < left.end() && right.begin() <= j < right.end() implies (
            #[trigger] other[i]).coord(axis) <= (#[trigger] other[j]).coord(axis) by {
                assert(midpoints[i].coord(axis) <= midpoints[j].coord(axis));
            }
            if *left is Leaf {
                assert forall|i: int, j: int| lo <= i <= j < mid implies (#[trigger] other[i]).coord(
                    axis,
                ) <= (#[trigger] other[j]).coord(axis) by {
                    assert(midpoints[i].coord(axis) <= midpoints[j].coord(axis));
                }
            }
            if *right is Leaf {
                assert forall|i: int, j: int| mid <= i <= j < hi implies (#[trigger] other[i]).coord(
                    axis,
                ) <= (#[trigger] other[j]).coord(axis) by {
                    assert(midpoints[i].coord(axis) <= midpoints[j].coord(axis));
                }
            }
        },
    }
}

/// Where every run is split along one and the same axis, the surfaces below
/// an inner node end in ascending order of their midpoints along that axis.
pub proof fn lemma_one_axis_sorts(
    tree: Tree,
    lo: int,
    hi: int,
    axis_of: spec_fn(AABB) -> Axis,
    midpoints: Seq<Point3>,
    axis: Axis,
)
    requires
        tree is Node,
        tree.covers(lo, hi),
        tree.median_split(axis_of, midpoints),
        forall|b: AABB| #[trigger] axis_of(b) == axis,
    ensures
        ascending(midpoints, axis, lo, hi),
    decreases tree,
{
    match tree {
        Tree::Leaf(_) => {},
        Tree::Node { left, right, bounding } => {
            let mid = lo + (hi - lo) / 2;
            assert(axis_of(bounding) == axis);
            lemma_covers_span(*left, lo, mid);
            lemma_covers_span(*right, mid, hi);
            if *left is Node {
                lemma_one_axis_sorts(*left, lo, mid, axis_of, midpoints, axis);
            }
            if *right is Node {
                lemma_one_axis_sorts(*right, mid, hi, axis_of, midpoints, axis);
            }
            assert(ascending(midpoints, axis, lo, mid));
            assert(ascending(midpoints, axis, mid, hi));
            assert forall|i: int, j: int| lo <= i <= j < hi implies (#[trigger] midpoints[i]).coord(
                axis,
            ) <= (#[trigger] midpoints[j]).coord(axis) by {
                if i < mid && mid <= j {
                    assert(midpoints[i].coord(axis_of(bounding)) <= midpoints[j].coord(
                        axis_of(bounding),
                    ));
                }
            }
        },
    }
}

} // verus!
