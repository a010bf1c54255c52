//! Handles and node values.

use vstd::prelude::*;

verus! {

/// An opaque handle to a node held in a [`Space`](crate::space::Space).
///
/// Two handles issued by one store are equal exactly when they name the same
/// entry; a handle is never reused for another value.
#[derive(Debug, Copy, Clone, PartialEq, Eq, PartialOrd, Ord, Hash, Structural)]
pub struct ID(pub(crate) usize);

/// A terminal node: one cell, dead (0) or alive (1).
#[derive(Debug, Copy, Clone, PartialEq, Eq, PartialOrd, Ord, Hash, Structural)]
pub struct Leaf(pub usize);

/// An internal node: a square of side `2^level` made of four quadrants one
/// level below it.
///
/// `level` and `pop` are derived from the children and `next` is the memoized
/// evolution result; none of the three takes part in the node's identity.
#[derive(Debug, Copy, Clone)]
pub struct Node {
    pub level: usize,
    pub pop: usize,
    pub next: Option<ID>,
    pub north_west: ID,
    pub north_east: ID,
    pub south_west: ID,
    pub south_east: ID,
}

/// A node value: a single cell or a square of four quadrants.
#[derive(Debug, Copy, Clone)]
pub enum QTree {
    Node(Node),
    Leaf(Leaf),
}

/// A cell position.
#[derive(Debug, Copy, Clone, PartialEq, Eq, Structural)]
pub struct Coord {
    pub x: i32,
    pub y: i32,
}

impl Node {
    /// Whether two internal nodes have the same four children, in the same
    /// order.
    pub open spec fn same_children(&self, other: &Node) -> bool {
        &&& self.north_west == other.north_west
        &&& self.north_east == other.north_east
        &&& self.south_west == other.south_west
        &&& self.south_east == other.south_east
    }
}

impl PartialEq for Node {
    fn eq(&self, other: &Self) -> (r: bool) {
        self.north_west == other.north_west && self.north_east == other.north_east
            && self.south_west == other.south_west && self.south_east == other.south_east
    }
}

impl vstd::std_specs::cmp::PartialEqSpecImpl for Node {
    open spec fn obeys_eq_spec() -> bool {
        true
    }

    open spec fn eq_spec(&self, other: &Node) -> bool {
        self.same_children(other)
    }
}

impl Eq for Node {

}

impl QTree {
    /// The structural identity of node values: two terminal nodes with the
    /// same state, or two internal nodes with the same children.
    pub open spec fn same_structure(&self, other: &QTree) -> bool {
        match (*self, *other) {
            (QTree::Leaf(a), QTree::Leaf(b)) => a.0 == b.0,
            (QTree::Node(a), QTree::Node(b)) => a.same_children(&b),
            _ => false,
        }
    }

    /// The number of live cells recorded in the node value.
    pub open spec fn spec_population(&self) -> usize {
        match *self {
            QTree::Node(i) => i.pop,
            QTree::Leaf(c) => c.0,
        }
    }

    /// The level recorded in the node value; a terminal node has level 0.
    pub open spec fn spec_level(&self) -> usize {
        match *self {
            QTree::Node(i) => i.level,
            QTree::Leaf(_) => 0,
        }
    }

    /// The memoized evolution result recorded in the node value, if any.
    pub open spec fn spec_next(&self) -> Option<ID> {
        match *self {
            QTree::Node(i) => i.next,
            QTree::Leaf(_) => None,
        }
    }

    /// The number of live cells recorded in the node value.
    #[verifier::when_used_as_spec(spec_population)]
    pub fn population(&self) -> (r: usize)
        ensures
            r == self.spec_population(),
    {
        match *self {
            QTree::Node(ref i) => i.pop,
            QTree::Leaf(c) => c.0,
        }
    }

    /// The level recorded in the node value; a terminal node has level 0.
    #[verifier::when_used_as_spec(spec_level)]
    pub fn level(&self) -> (r: usize)
        ensures
            r == self.spec_level(),
    {
        match *self {
            QTree::Node(ref i) => i.level,
            QTree::Leaf(_) => 0,
        }
    }
}

impl PartialEq for QTree {
    fn eq(&self, other: &Self) -> (r: bool) {
        match (self, other) {
            (QTree::Leaf(a), QTree::Leaf(b)) => a.0 == b.0,
            (QTree::Node(a), QTree::Node(b)) => a == b,
            _ => false,
        }
    }
}

impl vstd::std_specs::cmp::PartialEqSpecImpl for QTree {
    open spec fn obeys_eq_spec() -> bool {
        true
    }

    open spec fn eq_spec(&self, other: &QTree) -> bool {
        self.same_structure(other)
    }
}

impl Eq for QTree {

}

} // verus!
