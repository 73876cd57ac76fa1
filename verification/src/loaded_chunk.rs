//! A chunk together with what is known of the writes to it.

use crate::block::BlockType;
use crate::chunk::{Chunk, CHUNK_WIDTH_E3};
use crate::chunk_pos::ChunkPos;
use crate::dirtiness::{indices, policy_set, DirtinessTracker, TrackerView};
use crate::query::{BlockInfo, Cacheability, CacheableField, Policy};
use vstd::prelude::*;

verus! {

/// A loaded chunk as a mathematical value.
#[verifier::ext_equal]
pub struct LoadedChunkView {
    /// The block type of every cell, by the index of the cell.
    pub blocks: Seq<BlockType>,
    /// What is known of the writes to the chunk.
    pub tracker: TrackerView,
}

impl LoadedChunkView {
    /// The loaded chunk after `block_type` was put in the cell `p`.
    pub open spec fn write(self, p: int, block_type: BlockType) -> LoadedChunkView {
        LoadedChunkView {
            blocks: self.blocks.update(p, block_type),
            tracker: self.tracker.mark(p, CacheableField::CacheableBlockType),
        }
    }

    /// The loaded chunk after its tracker was reset with `policies`.
    pub open spec fn reset(self, policies: Set<Policy>) -> LoadedChunkView {
        LoadedChunkView { blocks: self.blocks, tracker: self.tracker.reset(policies) }
    }

    /// The loaded chunk after each of `updates`, a cell and the block type to put in it, was
    /// written, the first one first.
    pub open spec fn apply(self, updates: Seq<(int, BlockType)>) -> LoadedChunkView
        decreases updates.len(),
    {
        if updates.len() == 0 {
            self
        } else {
            self.apply(updates.drop_last()).write(updates.last().0, updates.last().1)
        }
    }
}

/// Whether one of `updates` is for the cell `p`.
pub open spec fn writes_to(updates: Seq<(int, BlockType)>, p: int) -> bool {
    exists|i: int| 0 <= i < updates.len() && (#[trigger] updates[i]).0 == p
}

/// What the cell `p` holds after `updates`, where it held `current` before: the block
/// type of the last update that is for `p`.
pub open spec fn last_written(
    updates: Seq<(int, BlockType)>,
    p: int,
    current: BlockType,
) -> BlockType
    decreases updates.len(),
{
    if updates.len() == 0 {
        current
    } else if updates.last().0 == p {
        updates.last().1
    } else {
        last_written(updates.drop_last(), p, current)
    }
}

/// A cell for which none of `updates` is keeps what it holds.
pub proof fn lemma_last_written_of_none(updates: Seq<(int, BlockType)>, p: int, current: BlockType)
    requires
        !writes_to(updates, p),
    ensures
        last_written(updates, p, current) == current,
    decreases updates.len(),
{
    if updates.len() > 0 {
        let earlier = updates.drop_last();
        assert(updates[updates.len() - 1].0 != p);
        assert forall|i: int| 0 <= i < earlier.len() implies (#[trigger] earlier[i]).0 != p by {
            assert(updates[i].0 != p);
        }
        lemma_last_written_of_none(earlier, p, current);
    }
}

/// A cell for which one of `updates` is holds what one of them put there.
pub proof fn lemma_last_written_of_some(updates: Seq<(int, BlockType)>, p: int, current: BlockType)
    requires
        writes_to(updates, p),
    ensures
        updates.contains((p, last_written(updates, p, current))),
    decreases updates.len(),
{
    let earlier = updates.drop_last();
    if updates.last().0 == p {
        assert(updates[updates.len() - 1] == (p, last_written(updates, p, current)));
    } else {
        let i = choose|i: int| 0 <= i < updates.len() && (#[trigger] updates[i]).0 == p;
        assert(earlier[i].0 == p);
        lemma_last_written_of_some(earlier, p, current);
        let j = choose|j: int|
            0 <= j < earlier.len() && earlier[j] == (p, last_written(earlier, p, current));
        assert(updates[j] == (p, last_written(updates, p, current)));
    }
}

/// What a run of writes to cells of the chunk leaves behind. The policies of the tracker
/// stay. A write is recorded exactly if it was recorded before or is one of the run. The
/// chunk keeps its size, and every cell holds what was written to it last.
pub proof fn lemma_apply(before: LoadedChunkView, updates: Seq<(int, BlockType)>)
    requires
        forall|i: int|
            0 <= i < updates.len() ==> 0 <= (#[trigger] updates[i]).0 < before.blocks.len(),
    ensures
        before.apply(updates).tracker.policies == before.tracker.policies,
        forall|w: (int, CacheableField)| #[trigger]
            before.apply(updates).tracker.written.contains(w)
                <==> before.tracker.written.contains(w) || (w.1
                == CacheableField::CacheableBlockType && writes_to(updates, w.0)),
        before.apply(updates).blocks.len() == before.blocks.len(),
        forall|p: int|
            0 <= p < before.blocks.len() ==> #[trigger] before.apply(updates).blocks[p]
                == last_written(updates, p, before.blocks[p]),
    decreases updates.len(),
{
    if updates.len() > 0 {
        let earlier = updates.drop_last();
        let last = updates.last();
        let after = before.apply(updates);
        assert(updates[updates.len() - 1] == last);
        assert forall|i: int| 0 <= i < earlier.len() implies 0 <= (#[trigger] earlier[i]).0
            < before.blocks.len() by {
            assert(earlier[i] == updates[i]);
        }
        lemma_apply(before, earlier);
        assert forall|w: (int, CacheableField)| #[trigger]
            after.tracker.written.contains(w) <==> before.tracker.written.contains(w) || (w.1
                == CacheableField::CacheableBlockType && writes_to(updates, w.0)) by {
            if writes_to(earlier, w.0) {
                let i = choose|i: int| 0 <= i < earlier.len() && (#[trigger] earlier[i]).0 == w.0;
                assert(updates[i].0 == w.0);
            }
            if writes_to(updates, w.0) && w.0 != last.0 {
                let i = choose|i: int| 0 <= i < updates.len() && (#[trigger] updates[i]).0 == w.0;
                assert(earlier[i].0 == w.0);
            }
        }
    }
}

/// The cells of `cells`, by their indices.
pub open spec fn cell_indices(cells: Seq<(ChunkPos, BlockInfo)>) -> Seq<int> {
    cells.map_values(|cell: (ChunkPos, BlockInfo)| cell.0.index())
}

/// A chunk, and the tracker that knows which of its cells were written.
pub struct LoadedChunk {
    chunk: Chunk,
    tracker: DirtinessTracker,
}

impl View for LoadedChunk {
    type V = LoadedChunkView;

    closed spec fn view(&self) -> LoadedChunkView {
        LoadedChunkView { blocks: self.chunk@, tracker: self.tracker@ }
    }
}

impl LoadedChunk {
    /// The chunk itself.
    pub closed spec fn chunk(&self) -> Chunk {
        self.chunk
    }

    /// The blocks of a loaded chunk are those of its chunk.
    pub proof fn lemma_chunk(&self)
        ensures
            self.chunk()@ == self@.blocks,
            self@.blocks.len() == CHUNK_WIDTH_E3,
    {
        self.chunk.lemma_len();
    }

    /// Loads `chunk`. Nothing is known of it yet: every cell is considerable for every
    /// policy.
    pub fn new(chunk: Chunk) -> (loaded: LoadedChunk)
        ensures
            loaded.chunk() == chunk,
            loaded@ == (LoadedChunkView {
                blocks: chunk@,
                tracker: TrackerView { written: Set::empty(), policies: Set::empty() },
            }),
    {
        LoadedChunk { chunk, tracker: DirtinessTracker::new() }
    }

    /// The chunk itself.
    pub fn get(&self) -> (chunk: &Chunk)
        ensures
            *chunk == self.chunk(),
            chunk@ == self@.blocks,
            chunk@.len() == CHUNK_WIDTH_E3,
    {
        proof {
            self.chunk.lemma_len();
        }
        &self.chunk
    }

    /// Puts a block of type `block_type` in the cell at `pos`, and records the write.
    pub fn set_block_type(&mut self, pos: ChunkPos, block_type: BlockType)
        ensures
            final(self)@ == old(self)@.write(pos.index(), block_type),
    {
        self.chunk.set_block_type(pos, block_type);
        self.tracker.mark_written(pos, CacheableField::CacheableBlockType);
    }

    /// The cells at which a rule with the policy `cacheability` has to be evaluated, in the
    /// order of their indices, each with what it holds.
    pub fn considerable_blocks_iter(&self, cacheability: &Cacheability) -> (cells: Vec<
        (ChunkPos, BlockInfo),
    >)
        ensures
            cell_indices(cells@) == self@.tracker.considerable_cells(
                cacheability@,
                CHUNK_WIDTH_E3 as nat,
            ),
            forall|i: int|
                0 <= i < cells@.len() ==> (#[trigger] cells@[i]).1 == (BlockInfo {
                    block_type: self@.blocks[cells@[i].0.index()],
                }),
    {
        let positions = self.tracker.considerable_positions(cacheability);
        let mut cells: Vec<(ChunkPos, BlockInfo)> = Vec::new();
        let mut i: usize = 0;
        while i < positions.len()
            invariant
                i <= positions.len(),
                cells@.len() == i,
                forall|j: int| 0 <= j < i ==> (#[trigger] cells@[j]).0 == positions@[j],
                forall|j: int|
                    0 <= j < i ==> (#[trigger] cells@[j]).1 == (BlockInfo {
                        block_type: self@.blocks[cells@[j].0.index()],
                    }),
            decreases positions.len() - i,
        {
            let pos = positions[i];
            cells.push((pos, self.chunk.get_block(pos)));
            i += 1;
        }
        assert(cell_indices(cells@) =~= indices(positions@));
        cells
    }

    /// Closes a step: forgets the writes recorded so far, which the step has looked at,
    /// and starts to keep track of the writes that matter to each of `cacheabilities`.
    /// What is written from now on is what the next step has to look at.
    pub fn reset_cache_busters(&mut self, cacheabilities: &[Cacheability])
        ensures
            final(self)@ == old(self)@.reset(policy_set(cacheabilities@)),
            final(self).chunk() == old(self).chunk(),
    {
        self.tracker.reset(cacheabilities);
    }
}

} // verus!
