//! The grid of blocks that a simulation runs on.

use crate::block::{empty, BlockType};
use crate::chunk_pos::ChunkPos;
use crate::query::BlockInfo;
use vstd::prelude::*;

verus! {

/// Edge length of a chunk, in cells.
pub const CHUNK_WIDTH: u8 = 16;

/// Cells in one layer of a chunk.
pub const CHUNK_WIDTH_E2: usize = 256;

/// Cells in a whole chunk.
pub const CHUNK_WIDTH_E3: usize = 4096;

/// A cube of blocks, `CHUNK_WIDTH` cells along each edge.
pub struct Chunk {
    blocks: [BlockType; CHUNK_WIDTH_E3],
}

impl View for Chunk {
    type V = Seq<BlockType>;

    /// The block type of every cell, by the index of the cell.
    closed spec fn view(&self) -> Seq<BlockType> {
        self.blocks@
    }
}

impl Chunk {
    /// A chunk in which every cell is empty.
    pub fn new() -> (chunk: Chunk)
        ensures
            chunk@.len() == CHUNK_WIDTH_E3,
            forall|i: int| 0 <= i < CHUNK_WIDTH_E3 ==> chunk@[i] == empty(),
    {
        Chunk { blocks: [empty(); CHUNK_WIDTH_E3] }
    }

    /// Every chunk has one block type for each of its cells.
    pub proof fn lemma_len(&self)
        ensures
            self@.len() == CHUNK_WIDTH_E3,
    {
    }

    /// What the cell at `pos` holds.
    pub fn get_block(&self, pos: ChunkPos) -> (info: BlockInfo)
        ensures
            info == (BlockInfo { block_type: self@[pos.index()] }),
    {
        BlockInfo { block_type: self.blocks[pos.raw_n() as usize] }
    }

    /// Puts a block of type `block_type` in the cell at `pos`.
    pub fn set_block_type(&mut self, pos: ChunkPos, block_type: BlockType)
        ensures
            final(self)@ == old(self)@.update(pos.index(), block_type),
    {
        self.blocks[pos.raw_n() as usize] = block_type;
    }
}

} // verus!
