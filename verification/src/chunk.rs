//! Chunks: fixed-size square tile grids, the unit of lazy generation.

use vstd::prelude::*;
use crate::tile::{Tile, wall_tile};

verus! {

/// Side length of a chunk, in tiles.
pub const CHUNK_SIZE: i32 = 32;

/// Whether `(x, y)` is a local coordinate inside a chunk.
pub open spec fn in_chunk(x: int, y: int) -> bool {
    0 <= x < 32 && 0 <= y < 32
}

/// Index of local coordinate `(x, y)` in a chunk's flat tile buffer.
pub open spec fn tile_idx(x: int, y: int) -> int {
    y * 32 + x
}

/// Flat indices are unique per local coordinate.
pub proof fn lemma_tile_idx_injective(x1: int, y1: int, x2: int, y2: int)
    by (nonlinear_arith)
    requires
        in_chunk(x1, y1),
        in_chunk(x2, y2),
        tile_idx(x1, y1) == tile_idx(x2, y2),
    ensures
        x1 == x2 && y1 == y2,
{
}

/// The flat index of every local coordinate lies inside the buffer.
pub proof fn lemma_tile_idx_bounds(x: int, y: int)
    by (nonlinear_arith)
    requires
        in_chunk(x, y),
    ensures
        0 <= tile_idx(x, y) < 1024,
{
}

/// A fixed-size square grid of tiles, identified by its chunk coordinates.
/// The flat buffer is addressed as `[y * CHUNK_SIZE + x]`.
pub struct Chunk {
    pub x: i32,
    pub y: i32,
    pub tiles: Vec<Tile>,
}

impl View for Chunk {
    type V = Seq<Tile>;

    open spec fn view(&self) -> Seq<Tile> {
        self.tiles@
    }
}

impl Chunk {
    /// The buffer holds exactly one tile per local coordinate.
    pub open spec fn wf(&self) -> bool {
        self@.len() == 1024
    }

    /// Builds a chunk that is solid rock: every cell a wall, to be carved.
    pub fn new(x: i32, y: i32) -> (c: Chunk)
        ensures
            c.wf(),
            c.x == x,
            c.y == y,
            forall|i: int| 0 <= i < 1024 ==> c@[i] == wall_tile(),
    {
        let mut tiles: Vec<Tile> = Vec::new();
        let mut i: usize = 0;
        while i < 1024
            invariant
                tiles@.len() == i,
                i <= 1024,
                forall|j: int| 0 <= j < i ==> tiles@[j] == wall_tile(),
            decreases 1024 - i,
        {
            tiles.push(Tile::wall());
            i = i + 1;
        }
        Chunk { x, y, tiles }
    }

    /// The tile at a local coordinate, or `None` when the coordinate lies
    /// outside `[0, CHUNK_SIZE)`: a caller-misuse guard, not an error.
    pub fn get_tile(&self, local_x: i32, local_y: i32) -> (r: Option<&Tile>)
        requires
            self.wf(),
        ensures
            match r {
                Some(t) => in_chunk(local_x as int, local_y as int)
                    && *t == self@[tile_idx(local_x as int, local_y as int)],
                None => !in_chunk(local_x as int, local_y as int),
            },
    {
        if local_x < 0 || local_x >= CHUNK_SIZE || local_y < 0 || local_y >= CHUNK_SIZE {
            return None;
        }
        proof {
            lemma_tile_idx_bounds(local_x as int, local_y as int);
        }
        let idx = (local_y * CHUNK_SIZE + local_x) as usize;
        Some(&self.tiles[idx])
    }

    /// Overwrites the slot at a local coordinate. An out-of-range coordinate
    /// is silently ignored: a defensive no-op, never a panic.
    pub fn set_tile(&mut self, local_x: i32, local_y: i32, tile: Tile)
        requires
            old(self).wf(),
        ensures
            final(self).wf(),
            final(self).x == old(self).x,
            final(self).y == old(self).y,
            in_chunk(local_x as int, local_y as int) ==> final(self)@ == old(self)@.update(
                tile_idx(local_x as int, local_y as int),
                tile,
            ),
            !in_chunk(local_x as int, local_y as int) ==> *final(self) == *old(self),
    {
        if local_x < 0 || local_x >= CHUNK_SIZE || local_y < 0 || local_y >= CHUNK_SIZE {
            return;
        }
        proof {
            lemma_tile_idx_bounds(local_x as int, local_y as int);
        }
        let idx = (local_y * CHUNK_SIZE + local_x) as usize;
        self.tiles[idx] = tile;
    }
}

} // verus!
