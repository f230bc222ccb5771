//! The flat tree: how the two lists of nodes, linked by index, make up a
//! tree.
use vstd::prelude::*;
use crate::aabb::AABB;
use crate::node::{ChildPointer, Internal, Leaf};
use crate::tree::Tree;

verus! {

/// How high a link stands: a leaf at 0, the inner node `i` at `i + 1`.
pub open spec fn rank(p: ChildPointer) -> nat {
    match p {
        ChildPointer::Internal(i) => (i + 1) as nat,
        ChildPointer::Leaf(_) => 0,
    }
}

/// Whether the link points at an inner node with an index in
/// `first_internal..end_internal` or at a leaf with an index in
/// `first_leaf..end_leaf`.
pub open spec fn within(
    p: ChildPointer,
    first_internal: int,
    end_internal: int,
    first_leaf: int,
    end_leaf: int,
) -> bool {
    match p {
        ChildPointer::Internal(i) => first_internal <= i < end_internal,
        ChildPointer::Leaf(l) => first_leaf <= l < end_leaf,
    }
}

/// Whether the link points at a node that exists.
pub open spec fn linked(internal: Seq<Internal>, leaf: Seq<Leaf>, p: ChildPointer) -> bool {
    within(p, 0, internal.len() as int, 0, leaf.len() as int)
}

/// Whether every inner node from `first_internal` on links to nodes that
/// stand in the lists from `first_internal` and `first_leaf` on: to leaves
/// that exist and to inner nodes that stand before it.
pub open spec fn links_from(
    internal: Seq<Internal>,
    leaf: Seq<Leaf>,
    first_internal: int,
    first_leaf: int,
) -> bool {
    forall|i: int|
        first_internal <= i < internal.len() ==> {
            &&& within(
                (#[trigger] internal[i]).left,
                first_internal,
                i,
                first_leaf,
                leaf.len() as int,
            )
            &&& within(internal[i].right, first_internal, i, first_leaf, leaf.len() as int)
        }
}

/// Whether every inner node links to leaves that exist and to inner nodes
/// that stand before it.
pub open spec fn links_back(internal: Seq<Internal>, leaf: Seq<Leaf>) -> bool {
    links_from(internal, leaf, 0, 0)
}

/// The tree below a link.
pub open spec fn subtree(internal: Seq<Internal>, leaf: Seq<Leaf>, p: ChildPointer) -> Tree
    decreases rank(p),
{
    match p {
        ChildPointer::Leaf(l) => if l < leaf.len() {
            Tree::Leaf(leaf[l as int])
        } else {
            Tree::Leaf(Leaf { begin: 0, length: 0, bounding: AABB::spec_zero() })
        },
        ChildPointer::Internal(i) => if i < internal.len() && rank(internal[i as int].left) < rank(
            p,
        ) && rank(internal[i as int].right) < rank(p) {
            Tree::Node {
                left: Box::new(subtree(internal, leaf, internal[i as int].left)),
                right: Box::new(subtree(internal, leaf, internal[i as int].right)),
                bounding: internal[i as int].bounding,
            }
        } else {
            Tree::Leaf(Leaf { begin: 0, length: 0, bounding: AABB::spec_zero() })
        },
    }
}

/// Whether `a` is the beginning of `b`.
pub open spec fn starts<E>(a: Seq<E>, b: Seq<E>) -> bool {
    a.len() <= b.len() && b.take(a.len() as int) == a
}

/// Nodes that are added behind the others leave the trees below the old
/// links as they were. This holds of the links into any part of the lists
/// whose inner nodes link into that part.
pub proof fn lemma_subtree_stays(
    internal: Seq<Internal>,
    leaf: Seq<Leaf>,
    more_internal: Seq<Internal>,
    more_leaf: Seq<Leaf>,
    first_internal: int,
    first_leaf: int,
    p: ChildPointer,
)
    requires
        0 <= first_internal,
        0 <= first_leaf,
        links_from(internal, leaf, first_internal, first_leaf),
        within(p, first_internal, internal.len() as int, first_leaf, leaf.len() as int),
        starts(internal, more_internal),
        starts(leaf, more_leaf),
    ensures
        subtree(more_internal, more_leaf, p) == subtree(internal, leaf, p),
    decreases rank(p),
{
    match p {
        ChildPointer::Leaf(l) => {
            assert(more_leaf.take(leaf.len() as int)[l as int] == leaf[l as int]);
        },
        ChildPointer::Internal(i) => {
            assert(more_internal.take(internal.len() as int)[i as int] == internal[i as int]);
            let node = internal[i as int];
            assert(within(node.left, first_internal, i as int, first_leaf, leaf.len() as int));
            assert(within(node.right, first_internal, i as int, first_leaf, leaf.len() as int));
            lemma_subtree_stays(
                internal,
                leaf,
                more_internal,
                more_leaf,
                first_internal,
                first_leaf,
                node.left,
            );
            lemma_subtree_stays(
                internal,
                leaf,
                more_internal,
                more_leaf,
                first_internal,
                first_leaf,
                node.right,
            );
        },
    }
}

/// Links into a part of the lists stay links into that part when nodes are
/// added behind, and the added nodes may link into the part as well.
pub proof fn lemma_links_from_grows(
    internal: Seq<Internal>,
    leaf: Seq<Leaf>,
    more_internal: Seq<Internal>,
    more_leaf: Seq<Leaf>,
    first_internal: int,
    first_leaf: int,
)
    requires
        0 <= first_internal <= internal.len(),
        0 <= first_leaf <= leaf.len(),
        links_from(internal, leaf, first_internal, first_leaf),
        starts(internal, more_internal),
        starts(leaf, more_leaf),
        links_from(more_internal, more_leaf, internal.len() as int, leaf.len() as int),
    ensures
        links_from(more_internal, more_leaf, first_internal, first_leaf),
{
    assert forall|i: int| first_internal <= i < more_internal.len() implies {
        &&& within(
            (#[trigger] more_internal[i]).left,
            first_internal,
            i,
            first_leaf,
            more_leaf.len() as int,
        )
        &&& within(more_internal[i].right, first_internal, i, first_leaf, more_leaf.len() as int)
    } by {
        if i < internal.len() {
            assert(more_internal.take(internal.len() as int)[i] == internal[i]);
        }
    }
}

} // verus!
