//! Positions inside one chunk, packed into a single index.

use crate::chunk::{CHUNK_WIDTH, CHUNK_WIDTH_E2, CHUNK_WIDTH_E3};
use vstd::prelude::*;

verus! {

/// Whether `(x, y, z)` names a cell of the chunk.
pub open spec fn in_chunk(x: int, y: int, z: int) -> bool {
    &&& 0 <= x < CHUNK_WIDTH
    &&& 0 <= y < CHUNK_WIDTH
    &&& 0 <= z < CHUNK_WIDTH
}

/// Whether `n` is the index of a cell of the chunk.
pub open spec fn is_index(n: int) -> bool {
    0 <= n < CHUNK_WIDTH_E3
}

/// The index that stands for the cell `(x, y, z)`.
pub open spec fn encode(x: int, y: int, z: int) -> int {
    x * (CHUNK_WIDTH_E2 as int) + y * (CHUNK_WIDTH as int) + z
}

/// The coordinates that the index `n` stands for.
pub open spec fn decode(n: int) -> (int, int, int) {
    (
        n / (CHUNK_WIDTH_E2 as int),
        (n / (CHUNK_WIDTH as int)) % (CHUNK_WIDTH as int),
        n % (CHUNK_WIDTH as int),
    )
}

/// The index that follows `n` in the walk over the chunk, if `n` is not the last one.
pub open spec fn successor(n: int) -> Option<int> {
    if n + 1 < CHUNK_WIDTH_E3 {
        Some(n + 1)
    } else {
        None
    }
}

/// Where the walk stands after `steps` advances from the first cell: `None` once an
/// advance has been refused.
pub open spec fn walk(steps: nat) -> Option<int>
    decreases steps,
{
    if steps == 0 {
        Some(0)
    } else {
        match walk((steps - 1) as nat) {
            Some(n) => successor(n),
            None => None,
        }
    }
}

/// Decoding an encoded cell gives the cell back, and the index of a cell is an index of
/// the chunk.
pub proof fn lemma_decode_encode(x: int, y: int, z: int)
    requires
        in_chunk(x, y, z),
    ensures
        is_index(encode(x, y, z)),
        decode(encode(x, y, z)) == (x, y, z),
{
}

/// Encoding the coordinates of an index gives the index back, and they name a cell of the
/// chunk: every index stands for a cell.
pub proof fn lemma_encode_decode(n: int)
    requires
        is_index(n),
    ensures
        in_chunk(decode(n).0, decode(n).1, decode(n).2),
        encode(decode(n).0, decode(n).1, decode(n).2) == n,
{
}

/// Two cells with the same index are the same cell.
pub proof fn lemma_encode_injective(x1: int, y1: int, z1: int, x2: int, y2: int, z2: int)
    requires
        in_chunk(x1, y1, z1),
        in_chunk(x2, y2, z2),
        encode(x1, y1, z1) == encode(x2, y2, z2),
    ensures
        x1 == x2,
        y1 == y2,
        z1 == z2,
{
    lemma_decode_encode(x1, y1, z1);
    lemma_decode_encode(x2, y2, z2);
}

/// The walk visits the indices in order: after `steps` advances it stands on index
/// `steps`, so it visits every cell of the chunk once, and the advance from the last
/// cell is refused.
pub proof fn lemma_walk_visits_every_cell(steps: nat)
    ensures
        steps < CHUNK_WIDTH_E3 ==> walk(steps) == Some(steps as int),
        steps >= CHUNK_WIDTH_E3 ==> walk(steps) is None,
    decreases steps,
{
    if steps > 0 {
        lemma_walk_visits_every_cell((steps - 1) as nat);
    }
}

/// A cell of a chunk.
#[derive(Clone, Copy, Debug, PartialEq, Eq, Structural, PartialOrd, Ord)]
pub struct Point {
    n: u16,
}

impl Point {
    #[verifier::type_invariant]
    spec fn in_range(self) -> bool {
        self.n < CHUNK_WIDTH_E3
    }

    /// The index of the cell.
    pub closed spec fn index(self) -> int {
        self.n as int
    }

    /// The coordinates of the cell.
    pub open spec fn coords(self) -> (int, int, int) {
        decode(self.index())
    }

    /// The cell with the index `n`.
    pub closed spec fn at(n: int) -> Point {
        Point { n: n as u16 }
    }

    /// A cell is the cell at its index, and the cell at an index of the chunk has that
    /// index.
    pub proof fn lemma_at(self, n: int)
        ensures
            Point::at(self.index()) == self,
            is_index(n) ==> Point::at(n).index() == n,
    {
    }

    /// The cell `(x, y, z)`.
    pub fn new(x: u8, y: u8, z: u8) -> (p: Point)
        requires
            in_chunk(x as int, y as int, z as int),
        ensures
            p.index() == encode(x as int, y as int, z as int),
            p.coords() == (x as int, y as int, z as int),
            is_index(p.index()),
        no_unwind
    {
        let width: u16 = CHUNK_WIDTH as u16;
        let layer: u16 = CHUNK_WIDTH_E2 as u16;
        assert(width == 16 && layer == 256);
        proof {
            lemma_decode_encode(x as int, y as int, z as int);
        }
        Point { n: (x as u16) * layer + (y as u16) * width + (z as u16) }
    }

    /// The index of the cell.
    pub fn raw_n(self) -> (n: u16)
        ensures
            n == self.index(),
            is_index(n as int),
        no_unwind
    {
        proof {
            use_type_invariant(&self);
        }
        self.n
    }

    pub fn x(self) -> (x: u8)
        ensures
            x == self.coords().0,
            x < CHUNK_WIDTH,
        no_unwind
    {
        proof {
            use_type_invariant(&self);
        }
        let width: u16 = CHUNK_WIDTH as u16;
        let layer: u16 = CHUNK_WIDTH_E2 as u16;
        assert(width == 16 && layer == 256);
        ((self.n / layer) % width) as u8
    }

    pub fn y(self) -> (y: u8)
        ensures
            y == self.coords().1,
            y < CHUNK_WIDTH,
        no_unwind
    {
        let width: u16 = CHUNK_WIDTH as u16;
        assert(width == 16);
        ((self.n / width) % width) as u8
    }

    pub fn z(self) -> (z: u8)
        ensures
            z == self.coords().2,
            z < CHUNK_WIDTH,
        no_unwind
    {
        let width: u16 = CHUNK_WIDTH as u16;
        assert(width == 16);
        (self.n % width) as u8
    }

    /// Moves to the next cell of the walk over the chunk. On the last cell nothing moves
    /// and the result is `false`.
    pub fn increment(&mut self) -> (advanced: bool)
        ensures
            advanced == successor(old(self).index()).is_some(),
            final(self).index() == match successor(old(self).index()) {
                Some(n) => n,
                None => old(self).index(),
            },
    {
        proof {
            use_type_invariant(&*self);
        }
        if self.n == CHUNK_WIDTH_E3 as u16 - 1 {
            false
        } else {
            self.n += 1;
            true
        }
    }
}

} // verus!
