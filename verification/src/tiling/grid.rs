//! Describes how the terrain is partitioned into a grid of chunks, each evaluated independently.

use vstd::prelude::*;

use crate::assoc::KeyEq;

verus! {

/// Identifies one chunk in a [`ChunkGrid`] by its integer grid position.
#[derive(Debug, Clone, Copy, PartialEq, Eq, Hash, Structural)]
pub struct ChunkCoord(pub i32, pub i32);

impl KeyEq for ChunkCoord {
    fn key_eq(&self, other: &Self) -> (r: bool) {
        self.0 == other.0 && self.1 == other.1
    }
}

/// A grid of chunks, each with a square tile of texels, that together cover the whole terrain.
/// (How many world units a texel covers is kept by the caller: nothing here depends on it.)
#[derive(Debug, Clone, Copy, PartialEq, Eq, Structural)]
pub struct ChunkGrid {
    chunks_x: u32,
    chunks_y: u32,
    /// Core (non-margin) texels per chunk edge.
    tile_size: usize,
}

/// The `k`-th chunk of a grid `cx` chunks wide, in row-major order.
pub open spec fn row_major_coord(cx: u32, k: int) -> ChunkCoord {
    ChunkCoord((k % (cx as int)) as u32 as i32, (k / (cx as int)) as u32 as i32)
}

impl ChunkGrid {
    pub closed spec fn spec_chunks_x(&self) -> u32 {
        self.chunks_x
    }

    pub closed spec fn spec_chunks_y(&self) -> u32 {
        self.chunks_y
    }

    pub closed spec fn spec_tile_size(&self) -> usize {
        self.tile_size
    }

    /// Every chunk grid holds at least one chunk.
    pub open spec fn wf(&self) -> bool {
        self.spec_chunks_x() > 0 && self.spec_chunks_y() > 0
    }

    /// Number of chunks in the grid.
    pub open spec fn chunk_count(&self) -> nat {
        (self.spec_chunks_x() as nat) * (self.spec_chunks_y() as nat)
    }

    /// The chunks of the grid, in row-major order.
    pub open spec fn coord_seq(&self) -> Seq<ChunkCoord> {
        Seq::new(self.chunk_count(), |k: int| row_major_coord(self.spec_chunks_x(), k))
    }

    /// A grid needs at least one chunk each way.
    pub fn new(chunks_x: u32, chunks_y: u32, tile_size: usize) -> (g: Self)
        requires
            chunks_x > 0 && chunks_y > 0,
        ensures
            g.wf(),
            g.spec_chunks_x() == chunks_x,
            g.spec_chunks_y() == chunks_y,
            g.spec_tile_size() == tile_size,
    {
        ChunkGrid { chunks_x, chunks_y, tile_size }
    }

    /// A grid of a single chunk.
    pub fn single(tile_size: usize) -> (g: Self)
        ensures
            g.wf(),
            g.spec_chunks_x() == 1,
            g.spec_chunks_y() == 1,
            g.spec_tile_size() == tile_size,
    {
        ChunkGrid { chunks_x: 1, chunks_y: 1, tile_size }
    }

    pub fn chunks_x(&self) -> (r: u32)
        ensures
            r == self.spec_chunks_x(),
    {
        self.chunks_x
    }

    pub fn chunks_y(&self) -> (r: u32)
        ensures
            r == self.spec_chunks_y(),
    {
        self.chunks_y
    }

    pub fn tile_size(&self) -> (r: usize)
        ensures
            r == self.spec_tile_size(),
    {
        self.tile_size
    }

    /// Every chunk coordinate in the grid, in row-major order.
    pub fn coords(&self) -> (r: Vec<ChunkCoord>)
        requires
            self.chunk_count() <= usize::MAX,
        ensures
            r@ == self.coord_seq(),
    {
        let mut r: Vec<ChunkCoord> = Vec::new();
        let mut y: u32 = 0;
        while y < self.chunks_y
            invariant
                y <= self.chunks_y,
                self.chunks_x > 0 ==> r@.len() == (y as nat) * (self.chunks_x as nat),
                self.chunks_x == 0 ==> r@.len() == 0,
                forall|k: int| 0 <= k < r@.len() ==> #[trigger] r@[k] == row_major_coord(self.chunks_x, k),
            decreases self.chunks_y - y,
        {
            let mut x: u32 = 0;
            let ghost base = r@.len();
            while x < self.chunks_x
                invariant
                    x <= self.chunks_x,
                    y < self.chunks_y,
                    r@.len() == base + x,
                    base == (y as nat) * (self.chunks_x as nat),
                    forall|k: int| 0 <= k < r@.len() ==> #[trigger] r@[k] == row_major_coord(self.chunks_x, k),
                decreases self.chunks_x - x,
            {
                proof {
                    let k = base + x;
                    assert(k == (y as int) * (self.chunks_x as int) + (x as int));
                    assert(k % (self.chunks_x as int) == x as int && k / (self.chunks_x as int) == y as int) by (nonlinear_arith)
                        requires
                            k == (y as int) * (self.chunks_x as int) + (x as int),
                            0 <= x < self.chunks_x,
                            0 <= y,
                    {
                        vstd::arithmetic::div_mod::lemma_fundamental_div_mod_converse(
                            k,
                            self.chunks_x as int,
                            y as int,
                            x as int,
                        );
                    }
                }
                r.push(ChunkCoord(x as i32, y as i32));
                x = x + 1;
            }
            proof {
                assert((y as nat + 1) * (self.chunks_x as nat) == (y as nat) * (self.chunks_x as nat) + self.chunks_x as nat) by (nonlinear_arith);
            }
            y = y + 1;
        }
        proof {
            assert(r@.len() == self.chunk_count()) by {
                if self.chunks_x > 0 {
                    assert((y as nat) * (self.chunks_x as nat) == (self.chunks_x as nat) * (self.chunks_y as nat)) by (nonlinear_arith)
                        requires y == self.chunks_y;
                } else {
                    assert((self.chunks_x as nat) * (self.chunks_y as nat) == 0) by (nonlinear_arith)
                        requires self.chunks_x == 0;
                }
            }
            assert(r@ =~= self.coord_seq());
        }
        r
    }
}

} // verus!
