//! Offsets from the cell that is being evaluated.

use vstd::prelude::*;

verus! {

/// A step from one cell to another, along each axis.
#[derive(Clone, Copy, Debug, PartialEq, Eq, Structural, Hash)]
pub struct RelativePos {
    pub x: i8,
    pub y: i8,
    pub z: i8,
}

impl RelativePos {
    pub fn new(x: i8, y: i8, z: i8) -> (pos: RelativePos)
        ensures
            pos == (RelativePos { x, y, z }),
    {
        RelativePos { x, y, z }
    }

    /// The offset of a cell from itself.
    pub fn here() -> (pos: RelativePos)
        ensures
            pos == (RelativePos { x: 0, y: 0, z: 0 }),
    {
        RelativePos { x: 0, y: 0, z: 0 }
    }
}

} // verus!
