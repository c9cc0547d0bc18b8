//! The ways in which a write to a quadtree is refused.

use vstd::prelude::*;

verus! {

/// Why a quadtree refused a write. A refused write leaves the tree as it was.
#[derive(Debug, Clone, Copy, PartialEq, Eq, Structural)]
pub enum QuadtreeError {
    /// A node would have to be cut into quadrants, but it is a single cell
    /// wide or a single cell tall.
    DegenerateSplit,
    /// The point lies outside the rectangle that it is to be written in.
    OutOfBounds,
}

} // verus!
