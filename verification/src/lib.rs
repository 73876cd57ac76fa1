//! A world of blocks that changes step by step, by rules.
//!
//! A chunk is a cube of cells, each of which holds a block of some type. A simulator holds
//! rules, each for the blocks of one type. A rule looks at the blocks around a cell through
//! queries and says what the block in the cell turns into. Every query says when its answer
//! may be used again; a tracker keeps, from the writes to the chunk, the cells at which a
//! rule has to be evaluated anew. A step evaluates the rules at those cells on the chunk as
//! it is, and writes what they ask for only once all of them have been evaluated.
//!
//! The modules, from the ground up: `point`, `relative_pos` and `chunk_pos` for positions;
//! `block` and `chunk` for the grid; `query` for queries and their policies; `dirtiness`
//! and `loaded_chunk` for the tracker; `sim` for rules, simulators and steps.

pub mod block;
pub mod chunk;
pub mod chunk_pos;
pub mod dirtiness;
pub mod loaded_chunk;
pub mod point;
pub mod query;
pub mod relative_pos;
pub mod sim;
pub mod unique_descrip;
