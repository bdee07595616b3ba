//! A fixed, hand-laid dungeon: two rooms joined by a corridor inside a
//! walled grid, with two monster markers placed.

use vstd::prelude::*;
use crate::pos::Pos;
use crate::tile::{Tile, empty_tile, floor_tile, monster_tile, wall_tile};

verus! {

/// Width of the fixed grid, in tiles.
pub const GRID_WIDTH: usize = 80;

/// Height of the fixed grid, in tiles.
pub const GRID_HEIGHT: usize = 24;

/// Whether `(x, y)` lies inside the fixed grid.
pub open spec fn in_grid(x: int, y: int) -> bool {
    0 <= x < 80 && 0 <= y < 24
}

/// Index of `(x, y)` in the grid's flat tile buffer.
pub open spec fn grid_idx(x: int, y: int) -> int {
    y * 80 + x
}

/// The flat index of every grid coordinate lies inside the buffer.
pub proof fn lemma_grid_idx_bounds(x: int, y: int)
    by (nonlinear_arith)
    requires
        in_grid(x, y),
    ensures
        0 <= grid_idx(x, y) < 1920,
{
}

/// The tile the fixed dungeon shows at `(x, y)`: the monster markers, over
/// the two rooms and the corridor joining them, over the border walls, over
/// empty space everywhere else.
pub open spec fn dungeon_tile(x: int, y: int) -> Tile {
    if x == 20 && y == 10 {
        monster_tile('g')
    } else if x == 70 && y == 12 {
        monster_tile('o')
    } else if 10 <= x < 30 && 5 <= y < 15 {
        floor_tile()
    } else if 30 <= x < 60 && y == 10 {
        floor_tile()
    } else if 60 <= x < 76 && 8 <= y < 16 {
        floor_tile()
    } else if x == 0 || x == 79 || y == 0 || y == 23 {
        wall_tile()
    } else {
        empty_tile()
    }
}

/// The world of the fixed dungeon: one tile per grid position.
pub struct WorldGrid {
    pub tiles: Vec<Tile>,
}

impl View for WorldGrid {
    type V = Seq<Tile>;

    open spec fn view(&self) -> Seq<Tile> {
        self.tiles@
    }
}

impl WorldGrid {
    /// The buffer holds exactly one tile per grid position.
    pub open spec fn wf(&self) -> bool {
        self@.len() == 1920
    }

    /// The tile at a position, or `None` outside the grid.
    pub fn get(&self, pos: Pos) -> (r: Option<&Tile>)
        requires
            self.wf(),
        ensures
            match r {
                Some(t) => in_grid(pos.x as int, pos.y as int) && *t == self@[grid_idx(
                    pos.x as int,
                    pos.y as int,
                )],
                None => !in_grid(pos.x as int, pos.y as int),
            },
    {
        if pos.x < 0 || pos.x >= 80 || pos.y < 0 || pos.y >= 24 {
            return None;
        }
        proof {
            lemma_grid_idx_bounds(pos.x as int, pos.y as int);
        }
        let idx = (pos.y * 80 + pos.x) as usize;
        Some(&self.tiles[idx])
    }

    /// Overwrites the slot at a position; a position outside the grid is
    /// silently ignored.
    pub fn set(&mut self, pos: Pos, tile: Tile)
        requires
            old(self).wf(),
        ensures
            final(self).wf(),
            in_grid(pos.x as int, pos.y as int) ==> final(self)@ == old(self)@.update(
                grid_idx(pos.x as int, pos.y as int),
                tile,
            ),
            !in_grid(pos.x as int, pos.y as int) ==> *final(self) == *old(self),
    {
        if pos.x < 0 || pos.x >= 80 || pos.y < 0 || pos.y >= 24 {
            return;
        }
        proof {
            lemma_grid_idx_bounds(pos.x as int, pos.y as int);
        }
        let idx = (pos.y * 80 + pos.x) as usize;
        self.tiles[idx] = tile;
    }
}

/// The fixed dungeon's tile at one position.
fn dungeon_cell(x: i32, y: i32) -> (t: Tile)
    requires
        in_grid(x as int, y as int),
    ensures
        t == dungeon_tile(x as int, y as int),
{
    if x == 20 && y == 10 {
        Tile::monster('g')
    } else if x == 70 && y == 12 {
        Tile::monster('o')
    } else if 10 <= x && x < 30 && 5 <= y && y < 15 {
        Tile::floor()
    } else if 30 <= x && x < 60 && y == 10 {
        Tile::floor()
    } else if 60 <= x && x < 76 && 8 <= y && y < 16 {
        Tile::floor()
    } else if x == 0 || x == 79 || y == 0 || y == 23 {
        Tile::wall()
    } else {
        Tile::empty()
    }
}

/// Builds the fixed dungeon world and the player's starting position.
pub fn generate_dungeon() -> (r: (WorldGrid, Pos))
    ensures
        r.0.wf(),
        forall|x: int, y: int| in_grid(x, y) ==> r.0@[grid_idx(x, y)] == dungeon_tile(x, y),
        r.1 == (Pos { x: 40, y: 12 }),
{
    let mut tiles: Vec<Tile> = Vec::new();
    let mut y: i32 = 0;
    while y < 24
        invariant
            0 <= y <= 24,
            tiles@.len() == y * 80,
            forall|xx: int, yy: int|
                in_grid(xx, yy) && yy < y ==> tiles@[grid_idx(xx, yy)] == dungeon_tile(xx, yy),
        decreases 24 - y,
    {
        let mut x: i32 = 0;
        while x < 80
            invariant
                0 <= y < 24,
                0 <= x <= 80,
                tiles@.len() == y * 80 + x,
                forall|xx: int, yy: int|
                    in_grid(xx, yy) && (yy < y || (yy == y && xx < x)) ==> tiles@[grid_idx(
                        xx,
                        yy,
                    )] == dungeon_tile(xx, yy),
            decreases 80 - x,
        {
            tiles.push(dungeon_cell(x, y));
            x = x + 1;
            proof {
                assert forall|xx: int, yy: int|
                    in_grid(xx, yy) && (yy < y || (yy == y && xx < x)) implies tiles@[grid_idx(
                    xx,
                    yy,
                )] == dungeon_tile(xx, yy) by {
                    lemma_grid_idx_bounds(xx, yy);
                    assert(grid_idx(xx, yy) <= y * 80 + x - 1) by (nonlinear_arith)
                        requires
                            in_grid(xx, yy),
                            0 <= y < 24,
                            0 < x <= 80,
                            yy < y || (yy == y && xx < x),
                    ;
                }
            }
        }
        y = y + 1;
    }
    let grid = WorldGrid { tiles };
    let player_start = Pos::new(40, 12);
    (grid, player_start)
}

/// Whether a position lies strictly inside the fixed grid's border walls.
pub fn is_in_bounds(pos: Pos) -> (r: bool)
    ensures
        r == (0 < pos.x < 79 && 0 < pos.y < 23),
{
    pos.x > 0 && pos.x < (GRID_WIDTH as i32) - 1 && pos.y > 0 && pos.y < (GRID_HEIGHT as i32) - 1
}

} // verus!
