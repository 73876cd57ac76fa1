//! Block types: what a cell is made of.

use vstd::prelude::*;

verus! {

/// The kind of block in a cell.
#[derive(Clone, Copy, Debug, PartialEq, Eq, Structural, Hash)]
pub struct BlockType(pub u8);

/// The block type that stands for a cell that cannot be seen, such as one outside the
/// chunk.
pub open spec fn spec_unknown() -> BlockType {
    BlockType(0)
}

/// The block type of a cell with nothing in it.
pub open spec fn spec_empty() -> BlockType {
    BlockType(1)
}

#[verifier::when_used_as_spec(spec_unknown)]
pub fn unknown() -> (block_type: BlockType)
    ensures
        block_type == spec_unknown(),
{
    BlockType(0)
}

#[verifier::when_used_as_spec(spec_empty)]
pub fn empty() -> (block_type: BlockType)
    ensures
        block_type == spec_empty(),
{
    BlockType(1)
}

} // verus!
