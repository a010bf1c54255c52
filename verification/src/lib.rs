//! A canonicalizing quadtree engine for Conway's Game of Life.
//!
//! Identical sub-patterns of the grid share one node of an append-only store,
//! and the evolution of every distinct node is computed at most once.

pub mod base;
pub mod bits;
pub mod evolve;
pub mod grid;
pub mod life;
pub mod meaning;
pub mod node;
pub mod placing;
pub mod pow2;
pub mod rle;
pub mod space;
pub mod table;
pub mod universe;
pub mod windows;

pub use crate::node::{Coord, Leaf, Node, QTree, ID};
pub use crate::rle::{parse_rle, Pattern, RleError};
pub use crate::space::Space;
pub use crate::universe::Universe;
