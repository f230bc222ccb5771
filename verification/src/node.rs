//! The records of the flat tree: leaves, inner nodes and the links between
//! them.
use vstd::prelude::*;
use crate::aabb::AABB;

verus! {

/// A link to a node: an index into the inner nodes or into the leaves.
#[derive(Clone, Copy, Debug, PartialEq, Eq, Structural)]
pub enum ChildPointer {
    Internal(usize),
    Leaf(usize),
}

/// An inner node: two children and the box around everything below them.
#[derive(Clone, Copy, Debug)]
pub struct Internal {
    pub left: ChildPointer,
    pub right: ChildPointer,
    pub bounding: AABB,
}

/// A leaf: a run of `length` surfaces that starts at `begin`, and the box
/// around them.
#[derive(Clone, Copy, Debug)]
pub struct Leaf {
    pub begin: usize,
    pub length: usize,
    pub bounding: AABB,
}

impl Leaf {
    /// The index just past the last surface of the leaf.
    pub open spec fn end(self) -> int {
        self.begin + self.length
    }

    /// Whether the surface at index `i` belongs to the leaf.
    pub open spec fn holds(self, i: int) -> bool {
        self.begin <= i < self.end()
    }
}

} // verus!
