//! Positions of cells in the chunk under simulation.

use crate::chunk::CHUNK_WIDTH;
use crate::point::{decode, encode, in_chunk, is_index, Point};
use crate::relative_pos::RelativePos;
use vstd::prelude::*;

verus! {

/// The index of the cell that lies `delta` away from the cell with index `n`, if that
/// cell is inside the chunk.
pub open spec fn offset_index(n: int, delta: RelativePos) -> Option<int> {
    let (x, y, z) = decode(n);
    if in_chunk(x + delta.x, y + delta.y, z + delta.z) {
        Some(encode(x + delta.x, y + delta.y, z + delta.z))
    } else {
        None
    }
}

/// A cell of the chunk under simulation.
#[derive(Clone, Copy, Debug, PartialEq, Eq, Structural)]
pub struct ChunkPos {
    point: Point,
}

impl ChunkPos {
    /// The index of the cell.
    pub closed spec fn index(self) -> int {
        self.point.index()
    }

    /// The coordinates of the cell.
    pub open spec fn coords(self) -> (int, int, int) {
        decode(self.index())
    }

    /// The position of the cell with the index `n`.
    pub closed spec fn at(n: int) -> ChunkPos {
        ChunkPos { point: Point::at(n) }
    }

    /// A position is the position at its index, and the position at an index of the chunk
    /// has that index.
    pub proof fn lemma_at(self, n: int)
        ensures
            ChunkPos::at(self.index()) == self,
            is_index(n) ==> ChunkPos::at(n).index() == n,
    {
        self.point.lemma_at(n);
    }

    /// The cell `(x, y, z)`.
    pub fn new(x: u8, y: u8, z: u8) -> (pos: ChunkPos)
        requires
            in_chunk(x as int, y as int, z as int),
        ensures
            pos.index() == encode(x as int, y as int, z as int),
            pos.coords() == (x as int, y as int, z as int),
            is_index(pos.index()),
        no_unwind
    {
        ChunkPos { point: Point::new(x, y, z) }
    }

    /// The position of the cell `point`.
    pub fn from_point(point: Point) -> (pos: ChunkPos)
        ensures
            pos.index() == point.index(),
    {
        ChunkPos { point }
    }

    /// The cell, as a point of the chunk.
    pub fn point(self) -> (point: Point)
        ensures
            point.index() == self.index(),
    {
        self.point
    }

    /// The index of the cell.
    pub fn raw_n(self) -> (n: u16)
        ensures
            n == self.index(),
            is_index(n as int),
        no_unwind
    {
        self.point.raw_n()
    }

    pub fn x(self) -> (x: u8)
        ensures
            x == self.coords().0,
            x < CHUNK_WIDTH,
        no_unwind
    {
        self.point.x()
    }

    pub fn y(self) -> (y: u8)
        ensures
            y == self.coords().1,
            y < CHUNK_WIDTH,
        no_unwind
    {
        self.point.y()
    }

    pub fn z(self) -> (z: u8)
        ensures
            z == self.coords().2,
            z < CHUNK_WIDTH,
        no_unwind
    {
        self.point.z()
    }

    /// The cell that lies `delta` away from this one, or `None` where that would be
    /// outside the chunk.
    pub fn offset(self, delta: RelativePos) -> (moved: Option<ChunkPos>)
        ensures
            match moved {
                Some(pos) => offset_index(self.index(), delta) == Some(pos.index()) && is_index(
                    pos.index(),
                ),
                None => offset_index(self.index(), delta) is None,
            },
    {
        let width: i16 = CHUNK_WIDTH as i16;
        let x: i16 = self.x() as i16 + delta.x as i16;
        let y: i16 = self.y() as i16 + delta.y as i16;
        let z: i16 = self.z() as i16 + delta.z as i16;
        if 0 <= x && x < width && 0 <= y && y < width && 0 <= z && z < width {
            Some(ChunkPos::new(x as u8, y as u8, z as u8))
        } else {
            None
        }
    }
}

} // verus!
