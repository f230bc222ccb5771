//! Runs of surfaces that are put into another order.
use vstd::prelude::*;
use vstd::seq_lib::{lemma_multiset_commutative, to_multiset_contains};
use crate::aabb::{AABB, lemma_hull_of_same_boxes};
use crate::bounded::{Bounded, boxes};

verus! {

/// Whether the surfaces at `lo..hi` are the same in `a` and `b` but for their
/// order, and all other surfaces are the same at each index.
pub open spec fn reordered<T>(a: Seq<Bounded<T>>, b: Seq<Bounded<T>>, lo: int, hi: int) -> bool {
    &&& a.len() == b.len()
    &&& 0 <= lo <= hi <= a.len()
    &&& forall|i: int| 0 <= i < a.len() && !(lo <= i < hi) ==> a[i] == b[i]
    &&& a.subrange(lo, hi).to_multiset() == b.subrange(lo, hi).to_multiset()
}

/// Every surface of a reordered run was in the run before.
pub proof fn lemma_reordered_came_from<T>(a: Seq<Bounded<T>>, b: Seq<Bounded<T>>, lo: int, hi: int, i: int) -> (j: int)
    requires
        reordered(a, b, lo, hi),
        lo <= i < hi,
    ensures
        lo <= j < hi,
        a[j] == b[i],
{
    let ra = a.subrange(lo, hi);
    let rb = b.subrange(lo, hi);
    assert(rb[i - lo] == b[i]);
    assert(rb.contains(b[i]));
    to_multiset_contains(rb, b[i]);
    to_multiset_contains(ra, b[i]);
    let k = choose|k: int| 0 <= k < ra.len() && ra[k] == b[i];
    lo + k
}

/// Reordering is symmetric.
pub proof fn lemma_reordered_symmetric<T>(a: Seq<Bounded<T>>, b: Seq<Bounded<T>>, lo: int, hi: int)
    requires
        reordered(a, b, lo, hi),
    ensures
        reordered(b, a, lo, hi),
{
}

/// A reordering within a part of a run is a reordering of the run.
pub proof fn lemma_reordered_widens<T>(
    a: Seq<Bounded<T>>,
    b: Seq<Bounded<T>>,
    lo: int,
    hi: int,
    wide_lo: int,
    wide_hi: int,
)
    requires
        reordered(a, b, lo, hi),
        0 <= wide_lo <= lo,
        hi <= wide_hi <= a.len(),
    ensures
        reordered(a, b, wide_lo, wide_hi),
{
    let a0 = a.subrange(wide_lo, lo);
    let a1 = a.subrange(lo, hi);
    let a2 = a.subrange(hi, wide_hi);
    let b0 = b.subrange(wide_lo, lo);
    let b1 = b.subrange(lo, hi);
    let b2 = b.subrange(hi, wide_hi);
    assert(a0 =~= b0);
    assert(a2 =~= b2);
    assert(a.subrange(wide_lo, wide_hi) =~= (a0 + a1) + a2);
    assert(b.subrange(wide_lo, wide_hi) =~= (b0 + b1) + b2);
    lemma_multiset_commutative(a0, a1);
    lemma_multiset_commutative(a0 + a1, a2);
    lemma_multiset_commutative(b0, b1);
    lemma_multiset_commutative(b0 + b1, b2);
}

/// One reordering after another is a reordering.
pub proof fn lemma_reordered_twice<T>(
    a: Seq<Bounded<T>>,
    b: Seq<Bounded<T>>,
    c: Seq<Bounded<T>>,
    lo: int,
    hi: int,
)
    requires
        reordered(a, b, lo, hi),
        reordered(b, c, lo, hi),
    ensures
        reordered(a, c, lo, hi),
{
}

/// The hull of the boxes of a run does not change when the run is reordered.
pub proof fn lemma_reordered_hull<T>(a: Seq<Bounded<T>>, b: Seq<Bounded<T>>, lo: int, hi: int)
    requires
        reordered(a, b, lo, hi),
    ensures
        AABB::hull(boxes(a).subrange(lo, hi)) == AABB::hull(boxes(b).subrange(lo, hi)),
{
    let ba = boxes(a).subrange(lo, hi);
    let bb = boxes(b).subrange(lo, hi);
    assert forall|i: int| 0 <= i < bb.len() implies ba.contains(#[trigger] bb[i]) by {
        let j = lemma_reordered_came_from(a, b, lo, hi, lo + i);
        assert(ba[j - lo] == bb[i]);
    }
    lemma_reordered_symmetric(a, b, lo, hi);
    assert forall|i: int| 0 <= i < ba.len() implies bb.contains(#[trigger] ba[i]) by {
        let j = lemma_reordered_came_from(b, a, lo, hi, lo + i);
        assert(bb[j - lo] == ba[i]);
    }
    lemma_hull_of_same_boxes(ba, bb);
}

} // verus!
