//! A region quadtree over a bounded rectangle of the integer grid.

pub mod error;
pub mod geometry;
pub mod node;
pub mod quadtree;
pub mod tree_laws;

pub use error::QuadtreeError;
pub use geometry::{Coordinate, Rect};
pub use node::{LeafNode, Node, QuadNode};
pub use quadtree::{Quadtree, QuadtreeIter};
