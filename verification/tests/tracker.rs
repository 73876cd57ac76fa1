use lotsa::block::{empty, BlockType};
use lotsa::chunk::Chunk;
use lotsa::chunk_pos::ChunkPos;
use lotsa::dirtiness::DirtinessTracker;
use lotsa::loaded_chunk::LoadedChunk;
use lotsa::query::CacheableField::CacheableBlockType;
use lotsa::query::Cacheability;
use lotsa::query::Cacheability::{
    DontCache, Forever, UntilChangeInChebyshevNeighborhood, UntilChangeInSelf,
};

fn own() -> Cacheability {
    UntilChangeInSelf { fields: vec![CacheableBlockType] }
}

fn around(distance: u8) -> Cacheability {
    UntilChangeInChebyshevNeighborhood { fields: vec![CacheableBlockType], distance }
}

fn cells_of(tracker: &DirtinessTracker, policy: &Cacheability) -> Vec<(u8, u8, u8)> {
    tracker.considerable_positions(policy).iter().map(|p| (p.x(), p.y(), p.z())).collect()
}

fn block(lo: (u8, u8, u8), hi: (u8, u8, u8)) -> Vec<(u8, u8, u8)> {
    let mut cells = Vec::new();
    for x in lo.0..=hi.0 {
        for y in lo.1..=hi.1 {
            for z in lo.2..=hi.2 {
                cells.push((x, y, z));
            }
        }
    }
    cells
}

#[test]
fn a_new_tracker_considers_every_cell_for_every_policy() {
    let tracker = DirtinessTracker::new();
    for policy in [DontCache, Forever, own(), around(1)] {
        assert_eq!(cells_of(&tracker, &policy), block((0, 0, 0), (15, 15, 15)));
        assert!(tracker.is_considerable(&policy, ChunkPos::new(3, 4, 5)));
    }
}

#[test]
fn after_a_reset_only_dont_cache_and_unknown_policies_consider_cells() {
    let mut tracker = DirtinessTracker::new();
    tracker.mark_written(ChunkPos::new(1, 1, 1), CacheableBlockType);
    tracker.reset(&[DontCache, Forever, own(), around(1)]);
    let none: Vec<(u8, u8, u8)> = vec![];
    assert_eq!(cells_of(&tracker, &DontCache), block((0, 0, 0), (15, 15, 15)));
    assert_eq!(cells_of(&tracker, &Forever), none);
    assert_eq!(cells_of(&tracker, &own()), none);
    assert_eq!(cells_of(&tracker, &around(1)), none);
    assert_eq!(cells_of(&tracker, &around(2)), block((0, 0, 0), (15, 15, 15)));
    assert!(!tracker.is_considerable(&own(), ChunkPos::new(1, 1, 1)));
    assert!(tracker.is_considerable(&around(2), ChunkPos::new(1, 1, 1)));
    assert!(tracker.is_considerable(&DontCache, ChunkPos::new(1, 1, 1)));
}

#[test]
fn a_write_makes_the_cell_considerable_for_a_self_policy() {
    let mut tracker = DirtinessTracker::new();
    tracker.reset(&[own(), Forever]);
    tracker.mark_written(ChunkPos::new(5, 6, 7), CacheableBlockType);
    assert_eq!(cells_of(&tracker, &own()), vec![(5, 6, 7)]);
    assert!(tracker.is_considerable(&own(), ChunkPos::new(5, 6, 7)));
    assert!(!tracker.is_considerable(&own(), ChunkPos::new(5, 6, 8)));
    let none: Vec<(u8, u8, u8)> = vec![];
    assert_eq!(cells_of(&tracker, &Forever), none);
    tracker.mark_written(ChunkPos::new(0, 0, 1), CacheableBlockType);
    tracker.mark_written(ChunkPos::new(5, 6, 7), CacheableBlockType);
    assert_eq!(cells_of(&tracker, &own()), vec![(0, 0, 1), (5, 6, 7)]);
}

#[test]
fn a_write_makes_the_cells_around_it_considerable_for_a_neighborhood_policy() {
    let mut tracker = DirtinessTracker::new();
    tracker.reset(&[around(1), around(2), own()]);
    tracker.mark_written(ChunkPos::new(5, 6, 7), CacheableBlockType);
    assert_eq!(cells_of(&tracker, &around(1)), block((4, 5, 6), (6, 7, 8)));
    assert_eq!(cells_of(&tracker, &around(1)).len(), 27);
    assert_eq!(cells_of(&tracker, &around(2)), block((3, 4, 5), (7, 8, 9)));
    assert_eq!(cells_of(&tracker, &around(2)).len(), 125);
    assert_eq!(cells_of(&tracker, &own()), vec![(5, 6, 7)]);
    assert!(tracker.is_considerable(&around(1), ChunkPos::new(6, 7, 8)));
    assert!(!tracker.is_considerable(&around(1), ChunkPos::new(7, 7, 8)));
}

#[test]
fn a_neighborhood_is_cut_at_the_edge_of_the_chunk() {
    let mut tracker = DirtinessTracker::new();
    tracker.reset(&[around(1), around(255), around(0)]);
    tracker.mark_written(ChunkPos::new(0, 0, 0), CacheableBlockType);
    assert_eq!(cells_of(&tracker, &around(1)), block((0, 0, 0), (1, 1, 1)));
    assert_eq!(cells_of(&tracker, &around(255)), block((0, 0, 0), (15, 15, 15)));
    assert_eq!(cells_of(&tracker, &around(0)), vec![(0, 0, 0)]);
    tracker.reset(&[around(1)]);
    tracker.mark_written(ChunkPos::new(15, 8, 15), CacheableBlockType);
    assert_eq!(cells_of(&tracker, &around(1)), block((14, 7, 14), (15, 9, 15)));
}

#[test]
fn the_cells_come_in_the_order_of_their_indices() {
    let mut tracker = DirtinessTracker::new();
    tracker.reset(&[own()]);
    tracker.mark_written(ChunkPos::new(9, 0, 0), CacheableBlockType);
    tracker.mark_written(ChunkPos::new(0, 0, 3), CacheableBlockType);
    tracker.mark_written(ChunkPos::new(0, 2, 0), CacheableBlockType);
    let indices: Vec<u16> =
        tracker.considerable_positions(&own()).iter().map(|p| p.raw_n()).collect();
    assert_eq!(indices, vec![3, 32, 2304]);
}

#[test]
fn a_policy_without_fields_is_never_made_stale() {
    let mut tracker = DirtinessTracker::new();
    let blind = UntilChangeInSelf { fields: vec![] };
    let blind_around = UntilChangeInChebyshevNeighborhood { fields: vec![], distance: 3 };
    tracker.reset(&[blind.clone(), blind_around.clone()]);
    tracker.mark_written(ChunkPos::new(5, 6, 7), CacheableBlockType);
    let none: Vec<(u8, u8, u8)> = vec![];
    assert_eq!(cells_of(&tracker, &blind), none);
    assert_eq!(cells_of(&tracker, &blind_around), none);
}

#[test]
fn a_reset_forgets_the_writes() {
    let mut tracker = DirtinessTracker::new();
    tracker.reset(&[own(), around(1)]);
    tracker.mark_written(ChunkPos::new(5, 6, 7), CacheableBlockType);
    tracker.reset(&[own(), around(1)]);
    let none: Vec<(u8, u8, u8)> = vec![];
    assert_eq!(cells_of(&tracker, &own()), none);
    assert_eq!(cells_of(&tracker, &around(1)), none);
}

#[test]
fn a_loaded_chunk_records_what_is_set() {
    let mut loaded = LoadedChunk::new(Chunk::new());
    assert_eq!(loaded.considerable_blocks_iter(&own()).len(), 4096);
    loaded.reset_cache_busters(&[own(), around(1)]);
    assert_eq!(loaded.considerable_blocks_iter(&own()).len(), 0);
    loaded.set_block_type(ChunkPos::new(2, 2, 2), BlockType(9));
    assert_eq!(loaded.get().get_block(ChunkPos::new(2, 2, 2)).block_type(), BlockType(9));
    let cells = loaded.considerable_blocks_iter(&own());
    assert_eq!(cells.len(), 1);
    assert_eq!(cells[0].0, ChunkPos::new(2, 2, 2));
    assert_eq!(cells[0].1.block_type(), BlockType(9));
    let cells = loaded.considerable_blocks_iter(&around(1));
    assert_eq!(cells.len(), 27);
    for (pos, info) in cells {
        let expected = if pos == ChunkPos::new(2, 2, 2) { BlockType(9) } else { empty() };
        assert_eq!(info.block_type(), expected);
        assert_eq!(loaded.get().get_block(pos).block_type(), expected);
    }
}
