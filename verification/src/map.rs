//! The chunk store and the procedural-generation engine.
//!
//! The store owns every generated chunk, keyed by chunk coordinate. A chunk is
//! generated lazily on first request, fully carved and repaired in a local
//! buffer, and committed exactly once; committed chunks are never altered
//! afterwards, so every read is a pure lookup.

use vstd::prelude::*;
use crate::chunk::{Chunk, CHUNK_SIZE, in_chunk, tile_idx, lemma_tile_idx_bounds};
use crate::pos::Pos;
use crate::rng::Rng;
use crate::tile::{Tile, floor_tile, wall_tile, wall_or_floor};

verus! {

broadcast use vstd::seq_lib::lemma_seq_contains_after_push;

/// Whether a tile shows the floor glyph.
pub open spec fn is_floor(t: Tile) -> bool {
    t.glyph == '.'
}

/// Whether a tile shows the wall glyph.
pub open spec fn is_wall(t: Tile) -> bool {
    t.glyph == '#'
}

/// A well-formed stored grid: one tile per local coordinate, every one of
/// them terrain (solid rock until carved, floor afterwards).
pub open spec fn grid_ok(g: Seq<Tile>) -> bool {
    &&& g.len() == 1024
    &&& forall|i: int| 0 <= i < 1024 ==> wall_or_floor(#[trigger] g[i])
}

/// The coordinate key of a chunk.
pub open spec fn coord_of(c: Chunk) -> (int, int) {
    (c.x as int, c.y as int)
}

/// The mathematical content of the store: chunk coordinate to tile grid.
pub open spec fn store_map(s: Seq<Chunk>) -> Map<(int, int), Seq<Tile>>
    decreases s.len(),
{
    if s.len() == 0 {
        Map::empty()
    } else {
        store_map(s.drop_last()).insert(coord_of(s.last()), s.last()@)
    }
}

/// A key is in the store exactly when some chunk of the backing vector
/// carries it.
pub proof fn lemma_store_map_contains(s: Seq<Chunk>, k: (int, int))
    ensures
        store_map(s).contains_key(k) <==> exists|i: int|
            0 <= i < s.len() && coord_of(s[i]) == k,
    decreases s.len(),
{
    if s.len() > 0 {
        lemma_store_map_contains(s.drop_last(), k);
        if coord_of(s.last()) == k {
            assert(coord_of(s[s.len() - 1]) == k);
        } else if store_map(s.drop_last()).contains_key(k) {
            let i = choose|i: int| 0 <= i < s.drop_last().len() && coord_of(
                s.drop_last()[i],
            ) == k;
            assert(coord_of(s[i]) == k);
        } else if exists|i: int| 0 <= i < s.len() && coord_of(s[i]) == k {
            let i = choose|i: int| 0 <= i < s.len() && coord_of(s[i]) == k;
            assert(i < s.len() - 1);
            assert(coord_of(s.drop_last()[i]) == k);
        }
    }
}

/// With pairwise distinct coordinates, the stored grid under a chunk's key is
/// that chunk's grid.
pub proof fn lemma_store_map_get(s: Seq<Chunk>, i: int)
    requires
        0 <= i < s.len(),
        forall|a: int, b: int|
            0 <= a < b < s.len() ==> coord_of(#[trigger] s[a]) != coord_of(#[trigger] s[b]),
    ensures
        store_map(s).contains_key(coord_of(s[i])),
        store_map(s)[coord_of(s[i])] == s[i]@,
    decreases s.len(),
{
    if i == s.len() - 1 {
        assert(s.last() == s[i]);
    } else {
        lemma_store_map_get(s.drop_last(), i);
        assert(s.drop_last()[i] == s[i]);
        assert(coord_of(s[s.len() - 1]) != coord_of(s[i]));
    }
}

/// Every stored grid is well formed.
pub open spec fn store_ok(m: Map<(int, int), Seq<Tile>>) -> bool {
    forall|k: (int, int)| m.contains_key(k) ==> grid_ok(#[trigger] m[k])
}

/// Every key names a chunk coordinate that fits the coordinate type.
pub open spec fn keys_in_range(m: Map<(int, int), Seq<Tile>>) -> bool {
    forall|k: (int, int)| #[trigger]
        m.contains_key(k) ==> i32::MIN <= k.0 <= i32::MAX && i32::MIN <= k.1 <= i32::MAX
}

/// The tile the world shows at a position: the stored tile when the owning
/// chunk exists, solid rock otherwise. Ungenerated space never reads as open.
pub open spec fn tile_at(m: Map<(int, int), Seq<Tile>>, x: int, y: int) -> Tile {
    let key = (x / 32, y / 32);
    if m.contains_key(key) {
        m[key][tile_idx(x % 32, y % 32)]
    } else {
        wall_tile()
    }
}

/// The store and the generation engine: all chunks, keyed by coordinate, and
/// the owned random source that drives carving.
pub struct MapManager {
    pub chunks: Vec<Chunk>,
    pub rng: Rng,
}

impl View for MapManager {
    type V = Map<(int, int), Seq<Tile>>;

    open spec fn view(&self) -> Map<(int, int), Seq<Tile>> {
        store_map(self.chunks@)
    }
}

impl MapManager {
    /// Structural soundness of the store: distinct coordinates, well-formed
    /// grids.
    pub open spec fn wf(&self) -> bool {
        &&& forall|a: int, b: int|
            0 <= a < b < self.chunks@.len() ==> coord_of(#[trigger] self.chunks@[a]) != coord_of(
                #[trigger] self.chunks@[b],
            )
        &&& forall|i: int|
            0 <= i < self.chunks@.len() ==> grid_ok(#[trigger] self.chunks@[i]@)
    }

    /// An empty world with a fixed default seed.
    pub fn new() -> (m: MapManager)
        ensures
            m.wf(),
            seams_ok(m@),
            m@ == Map::<(int, int), Seq<Tile>>::empty(),
    {
        MapManager { chunks: Vec::new(), rng: Rng::new(0x9E3779B97F4A7C15) }
    }

    /// An empty world whose generation is driven by the given seed. Equal
    /// seeds explore into equal worlds.
    pub fn with_seed(seed: u64) -> (m: MapManager)
        ensures
            m.wf(),
            seams_ok(m@),
            m@ == Map::<(int, int), Seq<Tile>>::empty(),
    {
        MapManager { chunks: Vec::new(), rng: Rng::new(seed) }
    }

    proof fn lemma_wf_store(&self)
        requires
            self.wf(),
        ensures
            store_ok(self@),
            keys_in_range(self@),
    {
        assert forall|k: (int, int)| self@.contains_key(k) implies grid_ok(self@[k])
            && i32::MIN <= k.0 <= i32::MAX && i32::MIN <= k.1 <= i32::MAX by {
            lemma_store_map_contains(self.chunks@, k);
            let i = choose|i: int| 0 <= i < self.chunks@.len() && coord_of(self.chunks@[i]) == k;
            lemma_store_map_get(self.chunks@, i);
        }
    }

    /// The index of the chunk holding the given coordinate, if it exists.
    fn find_chunk_idx(&self, cx: i32, cy: i32) -> (r: Option<usize>)
        requires
            self.wf(),
        ensures
            match r {
                Some(i) => i < self.chunks@.len() && coord_of(self.chunks@[i as int]) == (
                    cx as int,
                    cy as int,
                ) && self@.contains_key((cx as int, cy as int)) && self@[
                    (cx as int, cy as int)
                ] == self.chunks@[i as int]@,
                None => !self@.contains_key((cx as int, cy as int)),
            },
    {
        let n = self.chunks.len();
        let mut i: usize = 0;
        while i < n
            invariant
                self.wf(),
                n == self.chunks@.len(),
                i <= n,
                forall|j: int| 0 <= j < i ==> coord_of(#[trigger] self.chunks@[j]) != (
                    cx as int,
                    cy as int,
                ),
            decreases n - i,
        {
            let c = &self.chunks[i];
            if c.x == cx && c.y == cy {
                proof {
                    lemma_store_map_get(self.chunks@, i as int);
                }
                return Some(i);
            }
            i = i + 1;
        }
        proof {
            lemma_store_map_contains(self.chunks@, (cx as int, cy as int));
        }
        None
    }

    /// The chunk at a chunk coordinate, if it has been generated.
    pub fn chunk_at(&self, cx: i32, cy: i32) -> (r: Option<&Chunk>)
        requires
            self.wf(),
        ensures
            match r {
                Some(c) => self@.contains_key((cx as int, cy as int)) && c@ == self@[
                    (cx as int, cy as int)
                ] && c.x == cx && c.y == cy && c.wf() && grid_ok(c@),
                None => !self@.contains_key((cx as int, cy as int)),
            },
    {
        match self.find_chunk_idx(cx, cy) {
            Some(i) => {
                let c = &self.chunks[i];
                proof {
                    assert(grid_ok(self.chunks@[i as int]@));
                }
                Some(c)
            },
            None => None,
        }
    }

    /// Whether the chunk at a chunk coordinate has been generated.
    pub fn has_chunk(&self, cx: i32, cy: i32) -> (r: bool)
        requires
            self.wf(),
        ensures
            r == self@.contains_key((cx as int, cy as int)),
    {
        match self.chunk_at(cx, cy) {
            Some(_) => true,
            None => false,
        }
    }

    /// The tile at a world position. A total, pure query: it translates the
    /// position to chunk and local coordinates, reads the stored tile when
    /// the owning chunk exists, and reads solid rock otherwise.
    pub fn get_tile(&self, pos: Pos) -> (t: Tile)
        requires
            self.wf(),
        ensures
            t == tile_at(self@, pos.x as int, pos.y as int),
    {
        let cx = match pos.x.checked_div_euclid(CHUNK_SIZE) {
            Some(v) => v,
            None => {
                return Tile::wall();
            },
        };
        let cy = match pos.y.checked_div_euclid(CHUNK_SIZE) {
            Some(v) => v,
            None => {
                return Tile::wall();
            },
        };
        let lx = match pos.x.checked_rem_euclid(CHUNK_SIZE) {
            Some(v) => v,
            None => {
                return Tile::wall();
            },
        };
        let ly = match pos.y.checked_rem_euclid(CHUNK_SIZE) {
            Some(v) => v,
            None => {
                return Tile::wall();
            },
        };
        proof {
            lemma_tile_idx_bounds(pos.x as int % 32, pos.y as int % 32);
        }
        match self.chunk_at(cx, cy) {
            Some(chunk) => {
                match chunk.get_tile(lx, ly) {
                    Some(t) => *t,
                    None => Tile::wall(),
                }
            },
            None => Tile::wall(),
        }
    }
}

/// Horizontal step of direction `d` (north, south, west, east in order).
pub open spec fn dir_dx(d: int) -> int {
    if d == 2 {
        -1
    } else if d == 3 {
        1
    } else {
        0
    }
}

/// Vertical step of direction `d`.
pub open spec fn dir_dy(d: int) -> int {
    if d == 0 {
        -1
    } else if d == 1 {
        1
    } else {
        0
    }
}

/// Whether local cell `(x, y)` lies on the chunk edge facing direction `d`.
pub open spec fn on_edge(d: int, x: int, y: int) -> bool {
    if d == 0 {
        y == 0
    } else if d == 1 {
        y == 31
    } else if d == 2 {
        x == 0
    } else {
        x == 31
    }
}

/// Local x of the cell mirrored across edge `d`, in the neighbor chunk.
pub open spec fn mirror_x(d: int, x: int) -> int {
    if d == 2 {
        31
    } else if d == 3 {
        0
    } else {
        x
    }
}

/// Local y of the cell mirrored across edge `d`, in the neighbor chunk.
pub open spec fn mirror_y(d: int, y: int) -> int {
    if d == 0 {
        31
    } else if d == 1 {
        0
    } else {
        y
    }
}

/// The chunk coordinate of the neighbor in direction `d`.
pub open spec fn nbr_key(cx: int, cy: int, d: int) -> (int, int) {
    (cx + dir_dx(d), cy + dir_dy(d))
}

/// Whether the neighbor in direction `d` has been generated.
pub open spec fn nbr_present(m: Map<(int, int), Seq<Tile>>, cx: int, cy: int, d: int) -> bool {
    m.contains_key(nbr_key(cx, cy, d))
}

/// The generated neighbor across edge `d` shows floor at the mirrored cell.
pub open spec fn mirror_floor(
    m: Map<(int, int), Seq<Tile>>,
    cx: int,
    cy: int,
    d: int,
    x: int,
    y: int,
) -> bool {
    nbr_present(m, cx, cy, d) && is_floor(
        m[nbr_key(cx, cy, d)][tile_idx(mirror_x(d, x), mirror_y(d, y))],
    )
}

/// The generated neighbor across edge `d` shows a wall at the mirrored cell.
pub open spec fn mirror_wall(
    m: Map<(int, int), Seq<Tile>>,
    cx: int,
    cy: int,
    d: int,
    x: int,
    y: int,
) -> bool {
    nbr_present(m, cx, cy, d) && is_wall(
        m[nbr_key(cx, cy, d)][tile_idx(mirror_x(d, x), mirror_y(d, y))],
    )
}

/// The boundary-consistency rule for a carving step into local cell `(x, y)`
/// of the chunk at `(cx, cy)`: no generated neighbor may show a wall at the
/// mirrored cell across a shared edge.
pub open spec fn move_allowed(
    m: Map<(int, int), Seq<Tile>>,
    cx: int,
    cy: int,
    x: int,
    y: int,
) -> bool {
    forall|d: int| 0 <= d < 4 && on_edge(d, x, y) ==> !mirror_wall(m, cx, cy, d, x, y)
}

/// Writing floor at `(x, y)` keeps every seam with a generated neighbor
/// sound: wherever the cell touches a generated neighbor, that neighbor
/// shows floor at the mirrored cell.
pub open spec fn write_safe(
    m: Map<(int, int), Seq<Tile>>,
    cx: int,
    cy: int,
    x: int,
    y: int,
) -> bool {
    forall|d: int|
        0 <= d < 4 && on_edge(d, x, y) && nbr_present(m, cx, cy, d) ==> mirror_floor(
            m,
            cx,
            cy,
            d,
            x,
            y,
        )
}

/// Floor at `(x, y)` is demanded by some generated neighbor's floor at the
/// mirrored cell: the cell is a mandatory entry point.
pub open spec fn entry_demanded(
    m: Map<(int, int), Seq<Tile>>,
    cx: int,
    cy: int,
    x: int,
    y: int,
) -> bool {
    exists|d: int| 0 <= d < 4 && on_edge(d, x, y) && mirror_floor(m, cx, cy, d, x, y)
}

/// Every floor cell generation writes is either safe towards all generated
/// neighbors or demanded by one of them.
pub open spec fn floor_justified(
    m: Map<(int, int), Seq<Tile>>,
    cx: int,
    cy: int,
    x: int,
    y: int,
) -> bool {
    write_safe(m, cx, cy, x, y) || entry_demanded(m, cx, cy, x, y)
}

/// Every floor cell of the grid being carved is justified against the store
/// the generation pass reads.
pub open spec fn grid_justified(
    m: Map<(int, int), Seq<Tile>>,
    cx: int,
    cy: int,
    g: Seq<Tile>,
) -> bool {
    forall|x: int, y: int|
        in_chunk(x, y) && is_floor(#[trigger] g[tile_idx(x, y)]) ==> floor_justified(
            m,
            cx,
            cy,
            x,
            y,
        )
}

/// In a store of well-formed grids, a step the boundary-consistency rule
/// allows is safe to carve: what is not a wall there is floor.
pub proof fn lemma_allowed_is_safe(
    m: Map<(int, int), Seq<Tile>>,
    cx: int,
    cy: int,
    x: int,
    y: int,
)
    requires
        store_ok(m),
        in_chunk(x, y),
        move_allowed(m, cx, cy, x, y),
    ensures
        write_safe(m, cx, cy, x, y),
{
    assert forall|d: int|
        0 <= d < 4 && on_edge(d, x, y) && nbr_present(m, cx, cy, d) implies mirror_floor(
        m,
        cx,
        cy,
        d,
        x,
        y,
    ) by {
        let k = nbr_key(cx, cy, d);
        let mx = mirror_x(d, x);
        let my = mirror_y(d, y);
        lemma_tile_idx_bounds(mx, my);
        let t = m[k][tile_idx(mx, my)];
        assert(wall_or_floor(t));
        assert(!mirror_wall(m, cx, cy, d, x, y));
    }
}

impl MapManager {
    /// The generated neighbor of chunk `(cx, cy)` in direction `d`, if any.
    /// A neighbor coordinate that does not fit the coordinate type can never
    /// name a generated chunk.
    fn neighbor_at(&self, cx: i32, cy: i32, d: u8) -> (r: Option<&Chunk>)
        requires
            self.wf(),
            d < 4,
        ensures
            match r {
                Some(c) => nbr_present(self@, cx as int, cy as int, d as int) && c@ == self@[
                    nbr_key(cx as int, cy as int, d as int)
                ] && c.wf() && grid_ok(c@),
                None => !nbr_present(self@, cx as int, cy as int, d as int),
            },
    {
        proof {
            self.lemma_wf_store();
        }
        let ncx: i32;
        let ncy: i32;
        if d == 0 {
            ncx = cx;
            match cy.checked_sub(1) {
                Some(v) => {
                    ncy = v;
                },
                None => {
                    return None;
                },
            }
        } else if d == 1 {
            ncx = cx;
            match cy.checked_add(1) {
                Some(v) => {
                    ncy = v;
                },
                None => {
                    return None;
                },
            }
        } else if d == 2 {
            ncy = cy;
            match cx.checked_sub(1) {
                Some(v) => {
                    ncx = v;
                },
                None => {
                    return None;
                },
            }
        } else {
            ncy = cy;
            match cx.checked_add(1) {
                Some(v) => {
                    ncx = v;
                },
                None => {
                    return None;
                },
            }
        }
        self.chunk_at(ncx, ncy)
    }

    /// The boundary-consistency check that guards every carving step: a step
    /// into `(next_x, next_y)` is rejected when a generated neighbor shows a
    /// wall at the mirrored cell across the shared edge.
    fn is_move_allowed(&self, cx: i32, cy: i32, next_x: i32, next_y: i32) -> (r: bool)
        requires
            self.wf(),
            in_chunk(next_x as int, next_y as int),
        ensures
            r == move_allowed(self@, cx as int, cy as int, next_x as int, next_y as int),
    {
        let ghost cxi = cx as int;
        let ghost cyi = cy as int;
        let ghost nxi = next_x as int;
        let ghost nyi = next_y as int;
        let mut north_wall: bool = false;
        let mut south_wall: bool = false;
        let mut west_wall: bool = false;
        let mut east_wall: bool = false;
        if next_y == 0 {
            if let Some(north) = self.neighbor_at(cx, cy, 0) {
                if let Some(t) = north.get_tile(next_x, CHUNK_SIZE - 1) {
                    north_wall = t.glyph == '#';
                }
            }
        }
        if next_y == CHUNK_SIZE - 1 {
            if let Some(south) = self.neighbor_at(cx, cy, 1) {
                if let Some(t) = south.get_tile(next_x, 0) {
                    south_wall = t.glyph == '#';
                }
            }
        }
        if next_x == 0 {
            if let Some(west) = self.neighbor_at(cx, cy, 2) {
                if let Some(t) = west.get_tile(CHUNK_SIZE - 1, next_y) {
                    west_wall = t.glyph == '#';
                }
            }
        }
        if next_x == CHUNK_SIZE - 1 {
            if let Some(east) = self.neighbor_at(cx, cy, 3) {
                if let Some(t) = east.get_tile(0, next_y) {
                    east_wall = t.glyph == '#';
                }
            }
        }
        proof {
            assert(north_wall == (on_edge(0, nxi, nyi) && mirror_wall(self@, cxi, cyi, 0, nxi, nyi)));
            assert(south_wall == (on_edge(1, nxi, nyi) && mirror_wall(self@, cxi, cyi, 1, nxi, nyi)));
            assert(west_wall == (on_edge(2, nxi, nyi) && mirror_wall(self@, cxi, cyi, 2, nxi, nyi)));
            assert(east_wall == (on_edge(3, nxi, nyi) && mirror_wall(self@, cxi, cyi, 3, nxi, nyi)));
            if !north_wall && !south_wall && !west_wall && !east_wall {
                assert forall|d: int|
                    0 <= d < 4 && on_edge(d, nxi, nyi) implies !mirror_wall(
                    self@,
                    cxi,
                    cyi,
                    d,
                    nxi,
                    nyi,
                ) by {
                    if d == 0 {
                    } else if d == 1 {
                    } else if d == 2 {
                    } else {
                    }
                }
            }
        }
        !(north_wall || south_wall || west_wall || east_wall)
    }
}

/// Every mirrored neighbor floor across edge `d` has its entry cell in
/// `conns`.
spec fn dir_complete(
    m: Map<(int, int), Seq<Tile>>,
    cx: int,
    cy: int,
    d: int,
    conns: Seq<Pos>,
) -> bool {
    forall|x: int, y: int|
        in_chunk(x, y) && on_edge(d, x, y) && mirror_floor(m, cx, cy, d, x, y)
            ==> conns.contains((Pos { x: x as i32, y: y as i32 }))
}

/// Every listed entry cell is inside the chunk and demanded by a generated
/// neighbor.
spec fn conns_sound(m: Map<(int, int), Seq<Tile>>, cx: int, cy: int, conns: Seq<Pos>) -> bool {
    forall|i: int|
        0 <= i < conns.len() ==> in_chunk(#[trigger] conns[i].x as int, conns[i].y as int)
            && entry_demanded(m, cx, cy, conns[i].x as int, conns[i].y as int)
}

impl MapManager {
    /// Scans the shared edge of the generated neighbor in direction `d` and
    /// records, for every neighbor floor tile on it, the mandatory entry
    /// point on this chunk's matching edge.
    fn scan_edge(&self, cx: i32, cy: i32, d: u8, conns: &mut Vec<Pos>)
        requires
            self.wf(),
            d < 4,
            conns_sound(self@, cx as int, cy as int, old(conns)@),
        ensures
            conns_sound(self@, cx as int, cy as int, final(conns)@),
            forall|p: Pos| old(conns)@.contains(p) ==> final(conns)@.contains(p),
            dir_complete(self@, cx as int, cy as int, d as int, final(conns)@),
    {
        let ghost m = self@;
        let ghost cxi = cx as int;
        let ghost cyi = cy as int;
        let ghost di = d as int;
        let ghost conns0 = conns@;
        match self.neighbor_at(cx, cy, d) {
            None => {},
            Some(nc) => {
                let mut i: i32 = 0;
                while i < CHUNK_SIZE
                    invariant
                        self.wf(),
                        d < 4,
                        di == d as int,
                        cxi == cx as int,
                        cyi == cy as int,
                        0 <= i <= 32,
                        nbr_present(m, cxi, cyi, di),
                        nc@ == m[nbr_key(cxi, cyi, di)],
                        nc.wf(),
                        m == self@,
                        conns_sound(m, cxi, cyi, conns@),
                        forall|p: Pos| conns0.contains(p) ==> conns@.contains(p),
                        forall|ii: int|
                            0 <= ii < i && is_floor(
                                m[nbr_key(cxi, cyi, di)][
                                    tile_idx(
                                        mirror_x(di, edge_cell_x(di, ii)),
                                        mirror_y(di, edge_cell_y(di, ii)),
                                    )
                                ],
                            ) ==> conns@.contains(
                                (Pos {
                                    x: edge_cell_x(di, ii) as i32,
                                    y: edge_cell_y(di, ii) as i32,
                                }),
                            ),
                    decreases 32 - i,
                {
                    let (mx, my): (i32, i32) = if d == 0 {
                        (i, CHUNK_SIZE - 1)
                    } else if d == 1 {
                        (i, 0)
                    } else if d == 2 {
                        (CHUNK_SIZE - 1, i)
                    } else {
                        (0, i)
                    };
                    let is_fl = match nc.get_tile(mx, my) {
                        Some(t) => t.glyph == '.',
                        None => false,
                    };
                    if is_fl {
                        let (ex, ey): (i32, i32) = if d == 0 {
                            (i, 0)
                        } else if d == 1 {
                            (i, CHUNK_SIZE - 1)
                        } else if d == 2 {
                            (0, i)
                        } else {
                            (CHUNK_SIZE - 1, i)
                        };
                        proof {
                            assert(mx as int == mirror_x(di, ex as int));
                            assert(my as int == mirror_y(di, ey as int));
                            assert(on_edge(di, ex as int, ey as int));
                            assert(mirror_floor(m, cxi, cyi, di, ex as int, ey as int));
                        }
                        conns.push(Pos::new(ex, ey));
                    }
                    i = i + 1;
                }
                proof {
                    assert forall|x: int, y: int|
                        in_chunk(x, y) && on_edge(di, x, y) && mirror_floor(
                            m,
                            cxi,
                            cyi,
                            di,
                            x,
                            y,
                        ) implies conns@.contains(
                        (Pos { x: x as i32, y: y as i32 }),
                    ) by {
                        let ii: int = if di == 0 || di == 1 {
                            x
                        } else {
                            y
                        };
                        assert(edge_cell_x(di, ii) == x);
                        assert(edge_cell_y(di, ii) == y);
                    }
                }
            },
        }
    }

    /// Finds the mandatory entry points of a chunk about to be generated:
    /// one for every floor tile on a shared edge of an already-generated
    /// neighbor, placed at the mirrored cell of the new chunk.
    fn collect_entry_points(&self, cx: i32, cy: i32) -> (conns: Vec<Pos>)
        requires
            self.wf(),
        ensures
            conns_sound(self@, cx as int, cy as int, conns@),
            forall|x: int, y: int|
                in_chunk(x, y) && entry_demanded(self@, cx as int, cy as int, x, y)
                    ==> conns@.contains((Pos { x: x as i32, y: y as i32 })),
    {
        let ghost m = self@;
        let ghost cxi = cx as int;
        let ghost cyi = cy as int;
        let mut conns: Vec<Pos> = Vec::new();
        self.scan_edge(cx, cy, 0, &mut conns);
        let ghost c0 = conns@;
        self.scan_edge(cx, cy, 1, &mut conns);
        let ghost c1 = conns@;
        self.scan_edge(cx, cy, 2, &mut conns);
        let ghost c2 = conns@;
        self.scan_edge(cx, cy, 3, &mut conns);
        proof {
            assert forall|x: int, y: int|
                in_chunk(x, y) && entry_demanded(m, cxi, cyi, x, y) implies conns@.contains(
                (Pos { x: x as i32, y: y as i32 }),
            ) by {
                let d = choose|d: int|
                    0 <= d < 4 && on_edge(d, x, y) && mirror_floor(m, cxi, cyi, d, x, y);
                if d == 0 {
                    assert(c0.contains((Pos { x: x as i32, y: y as i32 })));
                } else if d == 1 {
                    assert(c1.contains((Pos { x: x as i32, y: y as i32 })));
                } else if d == 2 {
                    assert(c2.contains((Pos { x: x as i32, y: y as i32 })));
                }
            }
        }
        conns
    }
}

/// Local x of the `i`-th cell of this chunk's edge facing direction `d`.
pub open spec fn edge_cell_x(d: int, i: int) -> int {
    if d == 2 {
        0
    } else if d == 3 {
        31
    } else {
        i
    }
}

/// Local y of the `i`-th cell of this chunk's edge facing direction `d`.
pub open spec fn edge_cell_y(d: int, i: int) -> int {
    if d == 0 {
        0
    } else if d == 1 {
        31
    } else {
        i
    }
}

/// Carves floor into one local cell of a chunk buffer under construction,
/// keeping the grid well formed and every floor cell justified against the
/// store `m` that generation reads.
fn carve(
    chunk: &mut Chunk,
    x: i32,
    y: i32,
    Ghost(m): Ghost<Map<(int, int), Seq<Tile>>>,
    Ghost(ccx): Ghost<int>,
    Ghost(ccy): Ghost<int>,
)
    requires
        old(chunk).wf(),
        grid_ok(old(chunk)@),
        grid_justified(m, ccx, ccy, old(chunk)@),
        in_chunk(x as int, y as int),
        floor_justified(m, ccx, ccy, x as int, y as int),
    ensures
        final(chunk).wf(),
        final(chunk).x == old(chunk).x,
        final(chunk).y == old(chunk).y,
        grid_ok(final(chunk)@),
        grid_justified(m, ccx, ccy, final(chunk)@),
        final(chunk)@ == old(chunk)@.update(tile_idx(x as int, y as int), floor_tile()),
        is_floor(final(chunk)@[tile_idx(x as int, y as int)]),
        forall|i: int| 0 <= i < 1024 && is_floor(old(chunk)@[i]) ==> is_floor(final(chunk)@[i]),
{
    let ghost xi = x as int;
    let ghost yi = y as int;
    proof {
        lemma_tile_idx_bounds(xi, yi);
    }
    chunk.set_tile(x, y, Tile::floor());
    proof {
        let g = chunk@;
        assert forall|i: int| 0 <= i < 1024 implies wall_or_floor(g[i]) by {
            if i != tile_idx(xi, yi) {
                assert(g[i] == old(chunk)@[i]);
            }
        }
        assert forall|x2: int, y2: int|
            in_chunk(x2, y2) && is_floor(#[trigger] g[tile_idx(x2, y2)]) implies floor_justified(
            m,
            ccx,
            ccy,
            x2,
            y2,
        ) by {
            lemma_tile_idx_bounds(x2, y2);
            if tile_idx(x2, y2) == tile_idx(xi, yi) {
                crate::chunk::lemma_tile_idx_injective(x2, y2, xi, yi);
            } else {
                assert(g[tile_idx(x2, y2)] == old(chunk)@[tile_idx(x2, y2)]);
            }
        }
    }
}

/// The east edge of the chunk at `(cx, cy)` agrees with the west edge of its
/// east neighbor at row `y`: floor faces floor, wall faces wall.
pub open spec fn seam_matches_ew(m: Map<(int, int), Seq<Tile>>, cx: int, cy: int, y: int) -> bool {
    is_floor(m[(cx, cy)][tile_idx(31, y)]) == is_floor(m[(cx + 1, cy)][tile_idx(0, y)])
}

/// The south edge of the chunk at `(cx, cy)` agrees with the north edge of
/// its south neighbor at column `x`.
pub open spec fn seam_matches_ns(m: Map<(int, int), Seq<Tile>>, cx: int, cy: int, x: int) -> bool {
    is_floor(m[(cx, cy)][tile_idx(x, 31)]) == is_floor(m[(cx, cy + 1)][tile_idx(x, 0)])
}

/// Boundary consistency of the whole store: two generated chunks never
/// disagree at a shared edge cell away from the chunk corners. (At a corner
/// cell two perpendicular neighbors can place contradictory demands; entry
/// points win there, so the corner cells are left out of the invariant.)
pub open spec fn seams_ok(m: Map<(int, int), Seq<Tile>>) -> bool {
    &&& forall|cx: int, cy: int, y: int|
        m.contains_key((cx, cy)) && m.contains_key((cx + 1, cy)) && 1 <= y <= 30
            ==> #[trigger] seam_matches_ew(m, cx, cy, y)
    &&& forall|cx: int, cy: int, x: int|
        m.contains_key((cx, cy)) && m.contains_key((cx, cy + 1)) && 1 <= x <= 30
            ==> #[trigger] seam_matches_ns(m, cx, cy, x)
}

/// Every cell a generated neighbor demands (its floor on the shared edge,
/// mirrored into this chunk) is floor in the grid.
pub open spec fn entries_carved(
    m: Map<(int, int), Seq<Tile>>,
    cx: int,
    cy: int,
    g: Seq<Tile>,
) -> bool {
    forall|x: int, y: int|
        in_chunk(x, y) && entry_demanded(m, cx, cy, x, y) ==> is_floor(
            #[trigger] g[tile_idx(x, y)],
        )
}

/// The chunk has a floor tile somewhere on its edge facing direction `d`.
pub open spec fn has_edge_floor(g: Seq<Tile>, d: int) -> bool {
    exists|i: int|
        0 <= i < 32 && is_floor(#[trigger] g[tile_idx(edge_cell_x(d, i), edge_cell_y(d, i))])
}

/// Committing a freshly carved chunk whose floor cells are all justified and
/// whose demanded entries are all carved keeps the store's boundary
/// consistency.
pub proof fn lemma_insert_keeps_seams(
    m: Map<(int, int), Seq<Tile>>,
    cx: int,
    cy: int,
    g: Seq<Tile>,
)
    requires
        store_ok(m),
        seams_ok(m),
        !m.contains_key((cx, cy)),
        grid_ok(g),
        grid_justified(m, cx, cy, g),
        entries_carved(m, cx, cy, g),
    ensures
        seams_ok(m.insert((cx, cy), g)),
{
    let m2 = m.insert((cx, cy), g);
    assert forall|acx: int, acy: int, y: int|
        m2.contains_key((acx, acy)) && m2.contains_key((acx + 1, acy)) && 1 <= y
            <= 30 implies seam_matches_ew(m2, acx, acy, y) by {
        lemma_tile_idx_bounds(31, y);
        lemma_tile_idx_bounds(0, y);
        if (acx, acy) == (cx, cy) {
            // The new chunk is the west one of the pair; d = 3 is east.
            assert(nbr_key(cx, cy, 3) == (cx + 1, cy));
            assert(mirror_x(3, 31) == 0 && mirror_y(3, y) == y);
            if is_floor(g[tile_idx(31, y)]) {
                assert(floor_justified(m, cx, cy, 31, y));
                if write_safe(m, cx, cy, 31, y) {
                    assert(on_edge(3, 31, y) && nbr_present(m, cx, cy, 3));
                    assert(mirror_floor(m, cx, cy, 3, 31, y));
                } else {
                    let d = choose|d: int|
                        0 <= d < 4 && on_edge(d, 31, y) && mirror_floor(m, cx, cy, d, 31, y);
                    assert(d == 3);
                }
            }
            if is_floor(m[(cx + 1, cy)][tile_idx(0, y)]) {
                assert(mirror_floor(m, cx, cy, 3, 31, y));
                assert(on_edge(3, 31, y));
                assert(entry_demanded(m, cx, cy, 31, y));
                assert(is_floor(g[tile_idx(31, y)]));
            }
        } else if (acx + 1, acy) == (cx, cy) {
            // The new chunk is the east one of the pair; d = 2 is west.
            assert(nbr_key(cx, cy, 2) == (acx, acy));
            assert(mirror_x(2, 0) == 31 && mirror_y(2, y) == y);
            if is_floor(g[tile_idx(0, y)]) {
                assert(floor_justified(m, cx, cy, 0, y));
                if write_safe(m, cx, cy, 0, y) {
                    assert(on_edge(2, 0, y) && nbr_present(m, cx, cy, 2));
                    assert(mirror_floor(m, cx, cy, 2, 0, y));
                } else {
                    let d = choose|d: int|
                        0 <= d < 4 && on_edge(d, 0, y) && mirror_floor(m, cx, cy, d, 0, y);
                    assert(d == 2);
                }
            }
            if is_floor(m[(acx, acy)][tile_idx(31, y)]) {
                assert(mirror_floor(m, cx, cy, 2, 0, y));
                assert(on_edge(2, 0, y));
                assert(entry_demanded(m, cx, cy, 0, y));
                assert(is_floor(g[tile_idx(0, y)]));
            }
        } else {
            assert(seam_matches_ew(m, acx, acy, y));
        }
    }
    assert forall|acx: int, acy: int, x: int|
        m2.contains_key((acx, acy)) && m2.contains_key((acx, acy + 1)) && 1 <= x
            <= 30 implies seam_matches_ns(m2, acx, acy, x) by {
        lemma_tile_idx_bounds(x, 31);
        lemma_tile_idx_bounds(x, 0);
        if (acx, acy) == (cx, cy) {
            // The new chunk is the north one of the pair; d = 1 is south.
            assert(nbr_key(cx, cy, 1) == (cx, cy + 1));
            assert(mirror_x(1, x) == x && mirror_y(1, 31) == 0);
            if is_floor(g[tile_idx(x, 31)]) {
                assert(floor_justified(m, cx, cy, x, 31));
                if write_safe(m, cx, cy, x, 31) {
                    assert(on_edge(1, x, 31) && nbr_present(m, cx, cy, 1));
                    assert(mirror_floor(m, cx, cy, 1, x, 31));
                } else {
                    let d = choose|d: int|
                        0 <= d < 4 && on_edge(d, x, 31) && mirror_floor(m, cx, cy, d, x, 31);
                    assert(d == 1);
                }
            }
            if is_floor(m[(cx, cy + 1)][tile_idx(x, 0)]) {
                assert(mirror_floor(m, cx, cy, 1, x, 31));
                assert(on_edge(1, x, 31));
                assert(entry_demanded(m, cx, cy, x, 31));
                assert(is_floor(g[tile_idx(x, 31)]));
            }
        } else if (acx, acy + 1) == (cx, cy) {
            // The new chunk is the south one of the pair; d = 0 is north.
            assert(nbr_key(cx, cy, 0) == (acx, acy));
            assert(mirror_x(0, x) == x && mirror_y(0, 0) == 31);
            if is_floor(g[tile_idx(x, 0)]) {
                assert(floor_justified(m, cx, cy, x, 0));
                if write_safe(m, cx, cy, x, 0) {
                    assert(on_edge(0, x, 0) && nbr_present(m, cx, cy, 0));
                    assert(mirror_floor(m, cx, cy, 0, x, 0));
                } else {
                    let d = choose|d: int|
                        0 <= d < 4 && on_edge(d, x, 0) && mirror_floor(m, cx, cy, d, x, 0);
                    assert(d == 0);
                }
            }
            if is_floor(m[(acx, acy)][tile_idx(x, 31)]) {
                assert(mirror_floor(m, cx, cy, 0, x, 0));
                assert(on_edge(0, x, 0));
                assert(entry_demanded(m, cx, cy, x, 0));
                assert(is_floor(g[tile_idx(x, 0)]));
            }
        } else {
            assert(seam_matches_ns(m, acx, acy, x));
        }
    }
}

/// Number of `true` flags in a visit grid.
spec fn num_true(s: Seq<bool>) -> int
    decreases s.len(),
{
    if s.len() == 0 {
        0
    } else {
        num_true(s.drop_last()) + if s.last() {
            1int
        } else {
            0int
        }
    }
}

proof fn lemma_num_true_bounds(s: Seq<bool>)
    ensures
        0 <= num_true(s) <= s.len(),
    decreases s.len(),
{
    if s.len() > 0 {
        lemma_num_true_bounds(s.drop_last());
    }
}

proof fn lemma_num_true_update(s: Seq<bool>, i: int)
    requires
        0 <= i < s.len(),
        !s[i],
    ensures
        num_true(s.update(i, true)) == num_true(s) + 1,
    decreases s.len(),
{
    if i == s.len() - 1 {
        assert(s.update(i, true).drop_last() =~= s.drop_last());
    } else {
        lemma_num_true_update(s.drop_last(), i);
        assert(s.update(i, true).drop_last() =~= s.drop_last().update(i, true));
        assert(s.update(i, true).last() == s.last());
    }
}

/// Soundness of a visit grid: only floor cells (and the fill's start cell)
/// are ever marked.
spec fn flood_sound(g: Seq<Tile>, v: Seq<bool>, sidx: int) -> bool {
    &&& v.len() == 1024
    &&& forall|i: int| 0 <= i < 1024 && #[trigger] v[i] ==> is_floor(g[i]) || i == sidx
}

/// Marks `(nx, ny)` as visited and queues it, when it is a floor cell not
/// yet seen. One expansion step of the flood fill.
fn flood_try(
    chunk: &Chunk,
    visited: &mut Vec<bool>,
    queue: &mut Vec<Pos>,
    nx: i32,
    ny: i32,
    Ghost(sidx): Ghost<int>,
)
    requires
        chunk.wf(),
        flood_sound(chunk@, old(visited)@, sidx),
        forall|j: int|
            0 <= j < old(queue)@.len() ==> in_chunk(
                #[trigger] old(queue)@[j].x as int,
                old(queue)@[j].y as int,
            ),
    ensures
        flood_sound(chunk@, final(visited)@, sidx),
        forall|j: int|
            0 <= j < final(queue)@.len() ==> in_chunk(
                #[trigger] final(queue)@[j].x as int,
                final(queue)@[j].y as int,
            ),
        forall|i: int| 0 <= i < 1024 && old(visited)@[i] ==> final(visited)@[i],
        num_true(old(visited)@) <= num_true(final(visited)@),
        final(queue)@.len() >= old(queue)@.len(),
        final(queue)@.len() > old(queue)@.len() ==> num_true(final(visited)@) > num_true(
            old(visited)@,
        ),
{
    if nx < 0 || nx >= CHUNK_SIZE || ny < 0 || ny >= CHUNK_SIZE {
        return;
    }
    proof {
        lemma_tile_idx_bounds(nx as int, ny as int);
    }
    let idx = (ny * CHUNK_SIZE + nx) as usize;
    if !visited[idx] {
        let is_fl = match chunk.get_tile(nx, ny) {
            Some(t) => t.glyph == '.',
            None => false,
        };
        if is_fl {
            proof {
                lemma_num_true_update(visited@, idx as int);
            }
            visited[idx] = true;
            queue.push(Pos::new(nx, ny));
        }
    }
}

/// Picks a cell of the flood-filled region to carve repair paths from: the
/// first interior reached cell, or the fill's start cell when the region has
/// no interior cell.
fn pick_repair_start(visited: &Vec<bool>, first: Pos) -> (p: Pos)
    requires
        visited@.len() == 1024,
        in_chunk(first.x as int, first.y as int),
    ensures
        in_chunk(p.x as int, p.y as int),
        p == first || (1 <= p.x <= 30 && 1 <= p.y <= 30 && visited@[tile_idx(
            p.x as int,
            p.y as int,
        )]),
{
    let mut y: i32 = 1;
    while y < 31
        invariant
            visited@.len() == 1024,
            1 <= y <= 31,
        decreases 31 - y,
    {
        let mut x: i32 = 1;
        while x < 31
            invariant
                visited@.len() == 1024,
                1 <= y < 31,
                1 <= x <= 31,
            decreases 31 - x,
        {
            proof {
                lemma_tile_idx_bounds(x as int, y as int);
            }
            if visited[(y * CHUNK_SIZE + x) as usize] {
                return Pos::new(x, y);
            }
            x = x + 1;
        }
        y = y + 1;
    }
    first
}

/// Flood fill over floor tiles, 4-directional, from a start cell. Returns
/// the visit grid; every marked cell is floor (or the start itself).
fn flood_fill(chunk: &Chunk, start: Pos) -> (visited: Vec<bool>)
    requires
        chunk.wf(),
        in_chunk(start.x as int, start.y as int),
    ensures
        flood_sound(chunk@, visited@, tile_idx(start.x as int, start.y as int)),
        visited@[tile_idx(start.x as int, start.y as int)],
{
    let ghost sidx = tile_idx(start.x as int, start.y as int);
    let mut visited: Vec<bool> = Vec::new();
    let mut i: usize = 0;
    while i < 1024
        invariant
            visited@.len() == i,
            i <= 1024,
            forall|j: int| 0 <= j < i ==> !(#[trigger] visited@[j]),
        decreases 1024 - i,
    {
        visited.push(false);
        i = i + 1;
    }
    proof {
        lemma_tile_idx_bounds(start.x as int, start.y as int);
        lemma_num_true_update(visited@, sidx);
    }
    let s_i = (start.y * CHUNK_SIZE + start.x) as usize;
    visited[s_i] = true;
    let mut queue: Vec<Pos> = Vec::new();
    queue.push(start);
    while queue.len() > 0
        invariant
            chunk.wf(),
            sidx == tile_idx(start.x as int, start.y as int),
            0 <= sidx < 1024,
            flood_sound(chunk@, visited@, sidx),
            visited@[sidx],
            forall|j: int|
                0 <= j < queue@.len() ==> in_chunk(
                    #[trigger] queue@[j].x as int,
                    queue@[j].y as int,
                ),
        decreases 1024 - num_true(visited@), queue@.len(),
    {
        proof {
            lemma_num_true_bounds(visited@);
        }
        let pos = match queue.pop() {
            Some(p) => p,
            None => start,
        };
        flood_try(chunk, &mut visited, &mut queue, pos.x, pos.y - 1, Ghost(sidx));
        flood_try(chunk, &mut visited, &mut queue, pos.x, pos.y + 1, Ghost(sidx));
        flood_try(chunk, &mut visited, &mut queue, pos.x - 1, pos.y, Ghost(sidx));
        flood_try(chunk, &mut visited, &mut queue, pos.x + 1, pos.y, Ghost(sidx));
        proof {
            lemma_num_true_bounds(visited@);
        }
    }
    visited
}

impl MapManager {
    /// Runs one carving walker from each start cell: carve floor at the
    /// start, then take a bounded number of random cardinal steps, carving
    /// floor at every step the boundary-consistency rule accepts.
    fn carve_walkers(
        &mut self,
        chunk: &mut Chunk,
        cx: i32,
        cy: i32,
        walkers: &Vec<Pos>,
        steps: usize,
    )
        requires
            old(self).wf(),
            old(chunk).wf(),
            grid_ok(old(chunk)@),
            grid_justified(old(self)@, cx as int, cy as int, old(chunk)@),
            forall|i: int|
                0 <= i < walkers@.len() ==> in_chunk(
                    #[trigger] walkers@[i].x as int,
                    walkers@[i].y as int,
                ) && floor_justified(old(self)@, cx as int, cy as int, walkers@[i].x as int,
                walkers@[i].y as int),
        ensures
            final(self).chunks == old(self).chunks,
            final(chunk).wf(),
            final(chunk).x == old(chunk).x,
            final(chunk).y == old(chunk).y,
            grid_ok(final(chunk)@),
            grid_justified(old(self)@, cx as int, cy as int, final(chunk)@),
            forall|i: int|
                0 <= i < 1024 && is_floor(old(chunk)@[i]) ==> is_floor(final(chunk)@[i]),
            forall|i: int|
                0 <= i < walkers@.len() ==> is_floor(
                    final(chunk)@[tile_idx(#[trigger] walkers@[i].x as int, walkers@[i].y as int)],
                ),
    {
        let ghost m = old(self)@;
        let ghost cxi = cx as int;
        let ghost cyi = cy as int;
        let ghost g0 = old(chunk)@;
        let mut w: usize = 0;
        while w < walkers.len()
            invariant
                self.wf(),
                self.chunks == old(self).chunks,
                m == self@,
                cxi == cx as int,
                cyi == cy as int,
                w <= walkers@.len(),
                chunk.wf(),
                chunk.x == old(chunk).x,
                chunk.y == old(chunk).y,
                grid_ok(chunk@),
                grid_justified(m, cxi, cyi, chunk@),
                g0.len() == 1024,
                forall|i: int| 0 <= i < 1024 && is_floor(g0[i]) ==> is_floor(chunk@[i]),
                forall|i: int|
                    0 <= i < walkers@.len() ==> in_chunk(
                        #[trigger] walkers@[i].x as int,
                        walkers@[i].y as int,
                    ) && floor_justified(m, cxi, cyi, walkers@[i].x as int, walkers@[i].y as int),
                forall|j: int|
                    0 <= j < w ==> is_floor(
                        chunk@[tile_idx(#[trigger] walkers@[j].x as int, walkers@[j].y as int)],
                    ),
            decreases walkers@.len() - w,
        {
            let start = walkers[w];
            let mut curr = start;
            carve(chunk, curr.x, curr.y, Ghost(m), Ghost(cxi), Ghost(cyi));
            let mut s: usize = 0;
            while s < steps
                invariant
                    self.wf(),
                    self.chunks == old(self).chunks,
                    m == self@,
                    cxi == cx as int,
                    cyi == cy as int,
                    w < walkers@.len(),
                    in_chunk(curr.x as int, curr.y as int),
                    chunk.wf(),
                    chunk.x == old(chunk).x,
                    chunk.y == old(chunk).y,
                    grid_ok(chunk@),
                    grid_justified(m, cxi, cyi, chunk@),
                    g0.len() == 1024,
                    forall|i: int| 0 <= i < 1024 && is_floor(g0[i]) ==> is_floor(chunk@[i]),
                    forall|i: int|
                        0 <= i < walkers@.len() ==> in_chunk(
                            #[trigger] walkers@[i].x as int,
                            walkers@[i].y as int,
                        ) && floor_justified(m, cxi, cyi, walkers@[i].x as int,
                        walkers@[i].y as int),
                    forall|j: int|
                        0 <= j <= w ==> is_floor(
                            chunk@[tile_idx(#[trigger] walkers@[j].x as int, walkers@[j].y as int)],
                        ),
                decreases steps - s,
            {
                let dir = self.rng.gen_range(4);
                let (dx, dy): (i32, i32) = if dir == 0 {
                    (0, -1)
                } else if dir == 1 {
                    (0, 1)
                } else if dir == 2 {
                    (-1, 0)
                } else {
                    (1, 0)
                };
                let next_x = curr.x + dx;
                let next_y = curr.y + dy;
                if next_x >= 0 && next_x < CHUNK_SIZE && next_y >= 0 && next_y < CHUNK_SIZE {
                    if self.is_move_allowed(cx, cy, next_x, next_y) {
                        curr = Pos::new(next_x, next_y);
                        proof {
                            self.lemma_wf_store();
                            lemma_allowed_is_safe(m, cxi, cyi, curr.x as int, curr.y as int);
                        }
                        carve(chunk, curr.x, curr.y, Ghost(m), Ghost(cxi), Ghost(cyi));
                    }
                }
                s = s + 1;
            }
            w = w + 1;
        }
    }

    /// Carves a wiggly corridor from `start` towards `target`: mostly a step
    /// along the dominant axis towards the target, sometimes the other axis,
    /// sometimes a uniformly random wander. A step the boundary-consistency
    /// rule rejects forces an uncarved move along the dominant axis instead,
    /// so the walk always ends; the target cell itself is stamped floor as
    /// the termination guarantee, under a hard iteration cap.
    fn carve_organic_path(
        &mut self,
        chunk: &mut Chunk,
        cx: i32,
        cy: i32,
        start: Pos,
        target: Pos,
    )
        requires
            old(self).wf(),
            old(chunk).wf(),
            grid_ok(old(chunk)@),
            grid_justified(old(self)@, cx as int, cy as int, old(chunk)@),
            in_chunk(start.x as int, start.y as int),
            in_chunk(target.x as int, target.y as int),
            floor_justified(old(self)@, cx as int, cy as int, start.x as int, start.y as int),
            floor_justified(old(self)@, cx as int, cy as int, target.x as int, target.y as int),
        ensures
            final(self).chunks == old(self).chunks,
            final(chunk).wf(),
            final(chunk).x == old(chunk).x,
            final(chunk).y == old(chunk).y,
            grid_ok(final(chunk)@),
            grid_justified(old(self)@, cx as int, cy as int, final(chunk)@),
            forall|i: int|
                0 <= i < 1024 && is_floor(old(chunk)@[i]) ==> is_floor(final(chunk)@[i]),
            is_floor(final(chunk)@[tile_idx(target.x as int, target.y as int)]),
            is_floor(final(chunk)@[tile_idx(start.x as int, start.y as int)]),
    {
        let ghost m = old(self)@;
        let ghost cxi = cx as int;
        let ghost cyi = cy as int;
        let ghost g0 = old(chunk)@;
        let mut curr = start;
        carve(chunk, curr.x, curr.y, Ghost(m), Ghost(cxi), Ghost(cyi));
        let mut fuel: usize = 4096;
        while (curr.x != target.x || curr.y != target.y) && fuel > 0
            invariant
                self.wf(),
                self.chunks == old(self).chunks,
                m == self@,
                cxi == cx as int,
                cyi == cy as int,
                in_chunk(curr.x as int, curr.y as int),
                in_chunk(target.x as int, target.y as int),
                floor_justified(m, cxi, cyi, target.x as int, target.y as int),
                chunk.wf(),
                chunk.x == old(chunk).x,
                chunk.y == old(chunk).y,
                grid_ok(chunk@),
                grid_justified(m, cxi, cyi, chunk@),
                g0.len() == 1024,
                forall|i: int| 0 <= i < 1024 && is_floor(g0[i]) ==> is_floor(chunk@[i]),
                in_chunk(start.x as int, start.y as int),
                is_floor(chunk@[tile_idx(start.x as int, start.y as int)]),
            decreases fuel,
        {
            proof {
                lemma_tile_idx_bounds(start.x as int, start.y as int);
            }
            fuel = fuel - 1;
            let dx = target.x - curr.x;
            let dy = target.y - curr.y;
            let move_x: i32 = if dx > 0 {
                1
            } else if dx < 0 {
                -1
            } else {
                0
            };
            let move_y: i32 = if dy > 0 {
                1
            } else if dy < 0 {
                -1
            } else {
                0
            };
            let adx = if dx >= 0 {
                dx
            } else {
                -dx
            };
            let ady = if dy >= 0 {
                dy
            } else {
                -dy
            };
            let r = self.rng.gen_range(100);
            let next: Pos = if r < 70 {
                if adx > ady {
                    Pos::new(curr.x + move_x, curr.y)
                } else {
                    Pos::new(curr.x, curr.y + move_y)
                }
            } else if r < 85 {
                if adx > ady {
                    Pos::new(curr.x, curr.y + move_y)
                } else {
                    Pos::new(curr.x + move_x, curr.y)
                }
            } else {
                let wd = self.rng.gen_range(4);
                if wd == 0 {
                    Pos::new(curr.x, curr.y - 1)
                } else if wd == 1 {
                    Pos::new(curr.x, curr.y + 1)
                } else if wd == 2 {
                    Pos::new(curr.x - 1, curr.y)
                } else {
                    Pos::new(curr.x + 1, curr.y)
                }
            };
            if next.x >= 0 && next.x < CHUNK_SIZE && next.y >= 0 && next.y < CHUNK_SIZE {
                if self.is_move_allowed(cx, cy, next.x, next.y) {
                    curr = next;
                    proof {
                        self.lemma_wf_store();
                        lemma_allowed_is_safe(m, cxi, cyi, curr.x as int, curr.y as int);
                    }
                    carve(chunk, curr.x, curr.y, Ghost(m), Ghost(cxi), Ghost(cyi));
                } else {
                    // Blocked by a generated neighbor's wall: force one
                    // uncarved step along the dominant axis towards the
                    // target, carving only where the rule allows it.
                    if adx > ady {
                        curr = Pos::new(curr.x + move_x, curr.y);
                    } else {
                        curr = Pos::new(curr.x, curr.y + move_y);
                    }
                    if self.is_move_allowed(cx, cy, curr.x, curr.y) {
                        proof {
                            self.lemma_wf_store();
                            lemma_allowed_is_safe(m, cxi, cyi, curr.x as int, curr.y as int);
                        }
                        carve(chunk, curr.x, curr.y, Ghost(m), Ghost(cxi), Ghost(cyi));
                    }
                }
            }
        }
        carve(chunk, target.x, target.y, Ghost(m), Ghost(cxi), Ghost(cyi));
    }
}

/// Scans one chunk edge for a floor tile.
fn edge_has_floor(chunk: &Chunk, d: u8) -> (r: bool)
    requires
        chunk.wf(),
        d < 4,
    ensures
        r == has_edge_floor(chunk@, d as int),
{
    let ghost di = d as int;
    let mut i: i32 = 0;
    while i < CHUNK_SIZE
        invariant
            chunk.wf(),
            d < 4,
            di == d as int,
            0 <= i <= 32,
            forall|ii: int|
                0 <= ii < i ==> !is_floor(
                    #[trigger] chunk@[tile_idx(edge_cell_x(di, ii), edge_cell_y(di, ii))],
                ),
        decreases 32 - i,
    {
        let (ex, ey): (i32, i32) = if d == 0 {
            (i, 0)
        } else if d == 1 {
            (i, CHUNK_SIZE - 1)
        } else if d == 2 {
            (0, i)
        } else {
            (CHUNK_SIZE - 1, i)
        };
        let is_fl = match chunk.get_tile(ex, ey) {
            Some(t) => t.glyph == '.',
            None => false,
        };
        if is_fl {
            proof {
                assert(ex as int == edge_cell_x(di, i as int));
                assert(ey as int == edge_cell_y(di, i as int));
            }
            return true;
        }
        i = i + 1;
    }
    false
}

/// Collects every floor cell of a chunk buffer, scanned row by row.
fn collect_floor_tiles(chunk: &Chunk) -> (v: Vec<Pos>)
    requires
        chunk.wf(),
    ensures
        forall|i: int|
            0 <= i < v@.len() ==> in_chunk(#[trigger] v@[i].x as int, v@[i].y as int) && is_floor(
                chunk@[tile_idx(v@[i].x as int, v@[i].y as int)],
            ),
{
    let mut v: Vec<Pos> = Vec::new();
    let mut y: i32 = 0;
    while y < CHUNK_SIZE
        invariant
            chunk.wf(),
            0 <= y <= 32,
            forall|i: int|
                0 <= i < v@.len() ==> in_chunk(#[trigger] v@[i].x as int, v@[i].y as int)
                    && is_floor(chunk@[tile_idx(v@[i].x as int, v@[i].y as int)]),
        decreases 32 - y,
    {
        let mut x: i32 = 0;
        while x < CHUNK_SIZE
            invariant
                chunk.wf(),
                0 <= y < 32,
                0 <= x <= 32,
                forall|i: int|
                    0 <= i < v@.len() ==> in_chunk(#[trigger] v@[i].x as int, v@[i].y as int)
                        && is_floor(chunk@[tile_idx(v@[i].x as int, v@[i].y as int)]),
            decreases 32 - x,
        {
            let is_fl = match chunk.get_tile(x, y) {
                Some(t) => t.glyph == '.',
                None => false,
            };
            if is_fl {
                v.push(Pos::new(x, y));
            }
            x = x + 1;
        }
        y = y + 1;
    }
    v
}

impl MapManager {
    /// Whether the neighbor chunk in direction `d` has been generated.
    fn has_neighbor(&self, cx: i32, cy: i32, d: u8) -> (r: bool)
        requires
            self.wf(),
            d < 4,
        ensures
            r == nbr_present(self@, cx as int, cy as int, d as int),
    {
        match self.neighbor_at(cx, cy, d) {
            Some(_) => true,
            None => false,
        }
    }

    /// Commits a fully generated chunk to the store, exactly once.
    fn insert_chunk(&mut self, c: Chunk)
        requires
            old(self).wf(),
            grid_ok(c@),
            !old(self)@.contains_key((c.x as int, c.y as int)),
        ensures
            final(self).wf(),
            final(self)@ == old(self)@.insert((c.x as int, c.y as int), c@),
            final(self).rng == old(self).rng,
    {
        proof {
            assert forall|a: int|
                0 <= a < self.chunks@.len() implies coord_of(#[trigger] self.chunks@[a])
                != coord_of(c) by {
                if coord_of(self.chunks@[a]) == coord_of(c) {
                    lemma_store_map_get(self.chunks@, a);
                }
            }
        }
        self.chunks.push(c);
        proof {
            assert(self.chunks@.drop_last() =~= old(self).chunks@);
            assert(self.chunks@.last() == c);
        }
    }

    /// Generates the chunk at `(chunk_x, chunk_y)` unless it already exists;
    /// an idempotent command. A new chunk is fully carved and repaired in a
    /// local buffer, against the already-generated neighbors only, and then
    /// committed; no partial state is ever observable, and committed chunks
    /// never change.
    ///
    /// The generation pipeline: find the mandatory entry points that
    /// generated neighbors demand; run one carving walker from each (or from
    /// the chunk center when there are none); flood-fill from the first
    /// entry point and carve an organic path to every entry point the fill
    /// did not reach; and when no edge towards ungenerated space has floor,
    /// carve a forced exit to one, so the world never seals itself off.
    #[verifier::rlimit(60)]
    pub fn generate_chunk_if_needed(&mut self, chunk_x: i32, chunk_y: i32)
        requires
            old(self).wf(),
            seams_ok(old(self)@),
        ensures
            final(self).wf(),
            seams_ok(final(self)@),
            final(self)@.contains_key((chunk_x as int, chunk_y as int)),
            old(self)@.contains_key((chunk_x as int, chunk_y as int)) ==> *final(self) == *old(
                self,
            ),
            forall|k: (int, int)|
                k != (chunk_x as int, chunk_y as int) ==> (final(self)@.contains_key(k)
                    <==> old(self)@.contains_key(k)),
            forall|k: (int, int)| #[trigger]
                old(self)@.contains_key(k) ==> final(self)@.contains_key(k) && final(self)@[k]
                    == old(self)@[k],
            !old(self)@.contains_key((chunk_x as int, chunk_y as int)) ==> {
                let g = final(self)@[(chunk_x as int, chunk_y as int)];
                &&& grid_ok(g)
                &&& exists|i: int| 0 <= i < 1024 && is_floor(#[trigger] g[i])
                &&& entries_carved(old(self)@, chunk_x as int, chunk_y as int, g)
                &&& grid_justified(old(self)@, chunk_x as int, chunk_y as int, g)
                &&& (exists|d: int|
                    0 <= d < 4 && !nbr_present(old(self)@, chunk_x as int, chunk_y as int, d))
                    ==> (exists|d: int|
                    0 <= d < 4 && !nbr_present(old(self)@, chunk_x as int, chunk_y as int, d)
                        && has_edge_floor(g, d))
            },
    {
        let ghost m = old(self)@;
        let ghost cxi = chunk_x as int;
        let ghost cyi = chunk_y as int;
        if self.has_chunk(chunk_x, chunk_y) {
            return;
        }
        proof {
            self.lemma_wf_store();
        }
        let connections = self.collect_entry_points(chunk_x, chunk_y);
        let mut chunk = Chunk::new(chunk_x, chunk_y);
        proof {
            assert forall|x: int, y: int|
                in_chunk(x, y) && is_floor(#[trigger] chunk@[tile_idx(x, y)])
                    implies floor_justified(m, cxi, cyi, x, y) by {
                lemma_tile_idx_bounds(x, y);
            }
        }
        // Random-walk carving: a fixed step budget split over the walkers,
        // with a floor so that few walkers still carve meaningfully.
        let total_budget: usize = 300;
        let min_steps: usize = 50;
        let n_walkers: usize = if connections.len() > 0 {
            connections.len()
        } else {
            1
        };
        let per = total_budget / n_walkers;
        let steps = if per < min_steps {
            min_steps
        } else {
            per
        };
        if connections.len() > 0 {
            self.carve_walkers(&mut chunk, chunk_x, chunk_y, &connections, steps);
            proof {
                assert(is_floor(
                    chunk@[tile_idx(connections@[0].x as int, connections@[0].y as int)],
                ));
            }
        } else {
            let mut center: Vec<Pos> = Vec::new();
            center.push(Pos::new(CHUNK_SIZE / 2, CHUNK_SIZE / 2));
            proof {
                assert(center@[0].x == 16 && center@[0].y == 16);
                assert(write_safe(m, cxi, cyi, 16, 16));
            }
            self.carve_walkers(&mut chunk, chunk_x, chunk_y, &center, steps);
            proof {
                assert(is_floor(chunk@[tile_idx(center@[0].x as int, center@[0].y as int)]));
                assert(is_floor(chunk@[tile_idx(16, 16)]));
            }
        }
        proof {
            assert(m == self@);
            if connections@.len() > 0 {
                assert(in_chunk(connections@[0].x as int, connections@[0].y as int));
                lemma_tile_idx_bounds(connections@[0].x as int, connections@[0].y as int);
            } else {
                lemma_tile_idx_bounds(16, 16);
            }
            // Every demanded entry cell is one of the connections, and every
            // connection has been carved.
            assert forall|x: int, y: int|
                in_chunk(x, y) && entry_demanded(m, cxi, cyi, x, y) implies is_floor(
                #[trigger] chunk@[tile_idx(x, y)],
            ) by {
                let p = (Pos { x: x as i32, y: y as i32 });
                assert(connections@.contains(p));
                let i = choose|i: int| 0 <= i < connections@.len() && connections@[i] == p;
                assert(is_floor(chunk@[tile_idx(connections@[i].x as int, connections@[i].y as int)]));
            }
        }
        let ghost some_floor_idx: int = if connections@.len() > 0 {
            tile_idx(connections@[0].x as int, connections@[0].y as int)
        } else {
            tile_idx(16, 16)
        };
        // Connectivity repair: flood-fill from the first entry point; any
        // entry point not reached is isolated and gets an organic path from
        // the first one.
        if connections.len() > 0 {
            let first = connections[0];
            let visited = flood_fill(&chunk, first);
            // An arbitrary already-reached floor cell as the path source; an
            // interior one where possible, since a path from an interior cell
            // stays contiguous past blocked edge cells.
            let path_start = pick_repair_start(&visited, first);
            proof {
                lemma_tile_idx_bounds(first.x as int, first.y as int);
                if path_start != first {
                    lemma_tile_idx_bounds(path_start.x as int, path_start.y as int);
                }
            }
            let mut k: usize = 1;
            while k < connections.len()
                invariant
                    self.wf(),
                    self.chunks == old(self).chunks,
                    m == self@,
                    cxi == chunk_x as int,
                    cyi == chunk_y as int,
                    k >= 1,
                    conns_sound(m, cxi, cyi, connections@),
                    first == connections@[0],
                    connections@.len() > 0,
                    visited@.len() == 1024,
                    chunk.wf(),
                    chunk.x == chunk_x,
                    chunk.y == chunk_y,
                    grid_ok(chunk@),
                    grid_justified(m, cxi, cyi, chunk@),
                    entries_carved(m, cxi, cyi, chunk@),
                    0 <= some_floor_idx < 1024,
                    is_floor(chunk@[some_floor_idx]),
                    is_floor(chunk@[tile_idx(first.x as int, first.y as int)]),
                    in_chunk(path_start.x as int, path_start.y as int),
                    path_start == first || is_floor(
                        chunk@[tile_idx(path_start.x as int, path_start.y as int)],
                    ),
                decreases connections@.len() - k,
            {
                let conn = connections[k];
                proof {
                    lemma_tile_idx_bounds(conn.x as int, conn.y as int);
                    lemma_tile_idx_bounds(path_start.x as int, path_start.y as int);
                }
                let cidx = (conn.y * CHUNK_SIZE + conn.x) as usize;
                if !visited[cidx] {
                    proof {
                        assert(entry_demanded(m, cxi, cyi, first.x as int, first.y as int));
                        assert(entry_demanded(m, cxi, cyi, conn.x as int, conn.y as int));
                        assert(floor_justified(m, cxi, cyi, path_start.x as int,
                            path_start.y as int));
                    }
                    let ghost g_before = chunk@;
                    self.carve_organic_path(&mut chunk, chunk_x, chunk_y, path_start, conn);
                    proof {
                        assert forall|x: int, y: int|
                            in_chunk(x, y) && entry_demanded(m, cxi, cyi, x, y) implies is_floor(
                            #[trigger] chunk@[tile_idx(x, y)],
                        ) by {
                            lemma_tile_idx_bounds(x, y);
                            assert(is_floor(g_before[tile_idx(x, y)]));
                        }
                    }
                }
                k = k + 1;
            }
        }
        // Forced exit: when no edge bordering ungenerated space has floor,
        // carve a path from a random floor tile to a random such edge, so
        // future neighbors can always connect.
        proof {
            assert(is_floor(chunk@[some_floor_idx]));
        }
        let abs0 = !self.has_neighbor(chunk_x, chunk_y, 0);
        let abs1 = !self.has_neighbor(chunk_x, chunk_y, 1);
        let abs2 = !self.has_neighbor(chunk_x, chunk_y, 2);
        let abs3 = !self.has_neighbor(chunk_x, chunk_y, 3);
        let exit0 = abs0 && edge_has_floor(&chunk, 0);
        let exit1 = abs1 && edge_has_floor(&chunk, 1);
        let exit2 = abs2 && edge_has_floor(&chunk, 2);
        let exit3 = abs3 && edge_has_floor(&chunk, 3);
        let has_exit = exit0 || exit1 || exit2 || exit3;
        if !has_exit {
            let mut potential: Vec<u8> = Vec::new();
            if abs0 {
                potential.push(0);
            }
            if abs1 {
                potential.push(1);
            }
            if abs2 {
                potential.push(2);
            }
            if abs3 {
                potential.push(3);
            }
            if potential.len() > 0 {
                let ti = self.rng.gen_index(potential.len());
                let target_edge = potential[ti];
                let floor_tiles = collect_floor_tiles(&chunk);
                let start_pos = if floor_tiles.len() > 0 {
                    let fi = self.rng.gen_index(floor_tiles.len());
                    floor_tiles[fi]
                } else {
                    Pos::new(CHUNK_SIZE / 2, CHUNK_SIZE / 2)
                };
                // Keep the exit target away from the chunk corners: a corner
                // belongs to two seams, and stamping one could contradict a
                // generated chunk on the perpendicular seam.
                let cl_x: i32 = if start_pos.x < 1 {
                    1
                } else if start_pos.x > CHUNK_SIZE - 2 {
                    CHUNK_SIZE - 2
                } else {
                    start_pos.x
                };
                let cl_y: i32 = if start_pos.y < 1 {
                    1
                } else if start_pos.y > CHUNK_SIZE - 2 {
                    CHUNK_SIZE - 2
                } else {
                    start_pos.y
                };
                let target = if target_edge == 0 {
                    Pos::new(cl_x, 0)
                } else if target_edge == 1 {
                    Pos::new(cl_x, CHUNK_SIZE - 1)
                } else if target_edge == 2 {
                    Pos::new(0, cl_y)
                } else {
                    Pos::new(CHUNK_SIZE - 1, cl_y)
                };
                proof {
                    assert(is_floor(chunk@[tile_idx(start_pos.x as int, start_pos.y as int)])
                        || (start_pos.x == 16 && start_pos.y == 16));
                    assert(floor_justified(m, cxi, cyi, start_pos.x as int, start_pos.y as int));
                    assert(write_safe(m, cxi, cyi, target.x as int, target.y as int));
                }
                let ghost g_before = chunk@;
                let ghost te = target_edge as int;
                self.carve_organic_path(&mut chunk, chunk_x, chunk_y, start_pos, target);
                proof {
                    assert forall|x: int, y: int|
                        in_chunk(x, y) && entry_demanded(m, cxi, cyi, x, y) implies is_floor(
                        #[trigger] chunk@[tile_idx(x, y)],
                    ) by {
                        lemma_tile_idx_bounds(x, y);
                        assert(is_floor(g_before[tile_idx(x, y)]));
                    }
                    let wi: int = if te == 0 || te == 1 {
                        target.x as int
                    } else {
                        target.y as int
                    };
                    assert(edge_cell_x(te, wi) == target.x as int && edge_cell_y(te, wi)
                        == target.y as int);
                    assert(has_edge_floor(chunk@, te));
                    assert(!nbr_present(m, cxi, cyi, te));
                    assert(exists|d: int|
                        0 <= d < 4 && !nbr_present(m, cxi, cyi, d) && has_edge_floor(chunk@, d));
                    assert(is_floor(g_before[some_floor_idx]));
                    assert(is_floor(chunk@[some_floor_idx]));
                }
            }
        }
        proof {
            assert(is_floor(chunk@[some_floor_idx]));
            if exists|d: int| 0 <= d < 4 && !nbr_present(m, cxi, cyi, d) {
                if exit0 {
                    assert(!nbr_present(m, cxi, cyi, 0) && has_edge_floor(chunk@, 0));
                } else if exit1 {
                    assert(!nbr_present(m, cxi, cyi, 1) && has_edge_floor(chunk@, 1));
                } else if exit2 {
                    assert(!nbr_present(m, cxi, cyi, 2) && has_edge_floor(chunk@, 2));
                } else if exit3 {
                    assert(!nbr_present(m, cxi, cyi, 3) && has_edge_floor(chunk@, 3));
                } else {
                    let d = choose|d: int| 0 <= d < 4 && !nbr_present(m, cxi, cyi, d);
                    assert(exists|dd: int|
                        0 <= dd < 4 && !nbr_present(m, cxi, cyi, dd) && has_edge_floor(
                            chunk@,
                            dd,
                        ));
                }
            }
            self.lemma_wf_store();
            lemma_insert_keeps_seams(m, cxi, cyi, chunk@);
        }
        let ghost g_final = chunk@;
        self.insert_chunk(chunk);
        proof {
            let g = self@[(cxi, cyi)];
            assert(g == g_final);
            assert(is_floor(g[some_floor_idx]));
            assert(exists|i: int| 0 <= i < 1024 && is_floor(#[trigger] g[i]));
            if exists|d: int| 0 <= d < 4 && !nbr_present(m, cxi, cyi, d) {
                let dd = choose|d: int|
                    0 <= d < 4 && !nbr_present(m, cxi, cyi, d) && has_edge_floor(g_final, d);
                assert(has_edge_floor(g, dd));
            }
        }
    }
}

/// Replacing one chunk of the backing vector by a chunk with the same
/// coordinate updates the store's content at that key alone.
proof fn lemma_store_map_update(s: Seq<Chunk>, i: int, c: Chunk)
    requires
        0 <= i < s.len(),
        forall|a: int, b: int|
            0 <= a < b < s.len() ==> coord_of(#[trigger] s[a]) != coord_of(#[trigger] s[b]),
        coord_of(c) == coord_of(s[i]),
    ensures
        store_map(s.update(i, c)) == store_map(s).insert(coord_of(c), c@),
    decreases s.len(),
{
    let s2 = s.update(i, c);
    if i == s.len() - 1 {
        assert(s2.drop_last() =~= s.drop_last());
        assert(s2.last() == c);
        assert(store_map(s2) == store_map(s.drop_last()).insert(coord_of(c), c@));
        assert(store_map(s.drop_last()).insert(coord_of(c), c@) =~= store_map(s).insert(
            coord_of(c),
            c@,
        ));
    } else {
        assert(s2.drop_last() =~= s.drop_last().update(i, c));
        assert(s2.last() == s.last());
        assert(s.drop_last()[i] == s[i]);
        lemma_store_map_update(s.drop_last(), i, c);
        assert(coord_of(s[s.len() - 1]) != coord_of(c));
        assert(store_map(s2) == store_map(s.drop_last()).insert(coord_of(c), c@).insert(
            coord_of(s.last()),
            s.last()@,
        ));
        assert(store_map(s.drop_last()).insert(coord_of(c), c@).insert(
            coord_of(s.last()),
            s.last()@,
        ) =~= store_map(s).insert(coord_of(c), c@));
    }
}

/// Overwriting an interior cell of one stored chunk cannot disturb any seam:
/// seams read edge cells only.
proof fn lemma_interior_write_keeps_seams(
    m: Map<(int, int), Seq<Tile>>,
    key: (int, int),
    g2: Seq<Tile>,
    ix: int,
    iy: int,
)
    requires
        seams_ok(m),
        m.contains_key(key),
        0 < ix < 31,
        0 < iy < 31,
        m[key].len() == 1024,
        g2 == m[key].update(tile_idx(ix, iy), floor_tile()),
    ensures
        seams_ok(m.insert(key, g2)),
{
    let m2 = m.insert(key, g2);
    lemma_tile_idx_bounds(ix, iy);
    assert forall|x: int, y: int| in_chunk(x, y) && (x == 0 || x == 31 || y == 0 || y == 31)
        implies g2[tile_idx(x, y)] == m[key][tile_idx(x, y)] by {
        lemma_tile_idx_bounds(x, y);
        if tile_idx(x, y) == tile_idx(ix, iy) {
            crate::chunk::lemma_tile_idx_injective(x, y, ix, iy);
        }
    }
    assert forall|cx: int, cy: int, y: int|
        m2.contains_key((cx, cy)) && m2.contains_key((cx + 1, cy)) && 1 <= y
            <= 30 implies seam_matches_ew(m2, cx, cy, y) by {
        assert(seam_matches_ew(m, cx, cy, y));
        if (cx, cy) == key {
            assert(g2[tile_idx(31, y)] == m[key][tile_idx(31, y)]);
        }
        if (cx + 1, cy) == key {
            assert(g2[tile_idx(0, y)] == m[key][tile_idx(0, y)]);
        }
    }
    assert forall|cx: int, cy: int, x: int|
        m2.contains_key((cx, cy)) && m2.contains_key((cx, cy + 1)) && 1 <= x
            <= 30 implies seam_matches_ns(m2, cx, cy, x) by {
        assert(seam_matches_ns(m, cx, cy, x));
        if (cx, cy) == key {
            assert(g2[tile_idx(x, 31)] == m[key][tile_idx(x, 31)]);
        }
        if (cx, cy + 1) == key {
            assert(g2[tile_idx(x, 0)] == m[key][tile_idx(x, 0)]);
        }
    }
}

/// Every chunk other than the origin chunk reads the same in both stores.
spec fn frame_kept(m0: Map<(int, int), Seq<Tile>>, m1: Map<(int, int), Seq<Tile>>) -> bool {
    &&& forall|k: (int, int)|
        k != (0int, 0int) ==> (#[trigger] m1.contains_key(k) <==> m0.contains_key(k))
    &&& forall|k: (int, int)|
        k != (0int, 0int) && #[trigger] m0.contains_key(k) ==> m1[k] == m0[k]
}

impl MapManager {
    /// Picks a spawn location: generates the origin chunk, then searches
    /// outward in rings from the chunk center for the first floor tile,
    /// falling back to forcing a floor tile at the chunk center if none is
    /// found within the bounded search radius. The forced write touches an
    /// interior cell only, so boundary consistency is untouched; every chunk
    /// other than the origin chunk is left exactly as it was.
    pub fn find_spawn(&mut self) -> (p: Pos)
        requires
            old(self).wf(),
            seams_ok(old(self)@),
        ensures
            final(self).wf(),
            seams_ok(final(self)@),
            final(self)@.contains_key((0, 0)),
            0 <= p.x < 32 && 0 <= p.y < 32,
            is_floor(tile_at(final(self)@, p.x as int, p.y as int)),
            forall|k: (int, int)|
                k != (0int, 0int) ==> (final(self)@.contains_key(k) <==> old(self)@.contains_key(
                    k,
                )),
            forall|k: (int, int)|
                k != (0int, 0int) && #[trigger] old(self)@.contains_key(k) ==> final(self)@[k]
                    == old(self)@[k],
    {
        self.generate_chunk_if_needed(0, 0);
        let ghost m1 = self@;
        proof {
            assert(frame_kept(old(self)@, m1));
        }
        let center = Pos::new(CHUNK_SIZE / 2, CHUNK_SIZE / 2);
        let mut r: i32 = 0;
        while r <= 10
            invariant
                self.wf(),
                seams_ok(self@),
                self@ == m1,
                frame_kept(old(self)@, m1),
                self@.contains_key((0, 0)),
                center.x == 16 && center.y == 16,
                0 <= r,
            decreases 11 - r,
        {
            let mut dy: i32 = -r;
            while dy <= r
                invariant
                    self.wf(),
                    seams_ok(self@),
                    self@ == m1,
                    frame_kept(old(self)@, m1),
                    self@.contains_key((0, 0)),
                    center.x == 16 && center.y == 16,
                    0 <= r <= 10,
                    -r <= dy <= r + 1,
                decreases r + 1 - dy,
            {
                let mut dx: i32 = -r;
                while dx <= r
                    invariant
                        self.wf(),
                        seams_ok(self@),
                        self@ == m1,
                        frame_kept(old(self)@, m1),
                        self@.contains_key((0, 0)),
                        center.x == 16 && center.y == 16,
                        0 <= r <= 10,
                        -r <= dy <= r,
                        -r <= dx <= r + 1,
                    decreases r + 1 - dx,
                {
                    let on_ring = dx == -r || dx == r || dy == -r || dy == r;
                    if on_ring {
                        let p = Pos::new(center.x + dx, center.y + dy);
                        let t = self.get_tile(p);
                        if t.glyph == '.' {
                            return p;
                        }
                    }
                    dx = dx + 1;
                }
                dy = dy + 1;
            }
            r = r + 1;
        }
        // No floor near the center: force one at the chunk center itself.
        let ghost s1 = self.chunks@;
        match self.find_chunk_idx(0, 0) {
            Some(i) => {
                let ghost c_old = self.chunks@[i as int];
                self.chunks[i].set_tile(CHUNK_SIZE / 2, CHUNK_SIZE / 2, Tile::floor());
                proof {
                    let c_new = self.chunks@[i as int];
                    assert(self.chunks@ =~= s1.update(i as int, c_new));
                    lemma_tile_idx_bounds(16, 16);
                    assert(c_new@ == c_old@.update(tile_idx(16, 16), floor_tile()));
                    lemma_store_map_update(s1, i as int, c_new);
                    lemma_interior_write_keeps_seams(m1, (0int, 0int), c_new@, 16, 16);
                    assert forall|j: int|
                        0 <= j < self.chunks@.len() implies grid_ok(
                        #[trigger] self.chunks@[j]@,
                    ) by {
                        if j != i as int {
                            assert(self.chunks@[j] == s1[j]);
                        }
                    }
                    assert(self@[(0int, 0int)][tile_idx(16, 16)] == floor_tile());
                }
                Pos::new(CHUNK_SIZE / 2, CHUNK_SIZE / 2)
            },
            None => {
                // Unreachable: the origin chunk was just generated.
                proof {
                    assert(false);
                }
                Pos::new(CHUNK_SIZE / 2, CHUNK_SIZE / 2)
            },
        }
    }
}

/// Determinism of lookup: for a fixed store state, looking the same position
/// up twice gives identical results — the tile is a function of store and
/// position alone.
pub proof fn lemma_lookup_deterministic(
    m: Map<(int, int), Seq<Tile>>,
    x: int,
    y: int,
    t1: Tile,
    t2: Tile,
)
    requires
        t1 == tile_at(m, x, y),
        t2 == tile_at(m, x, y),
    ensures
        t1 == t2,
{
}

/// Wall default: a position whose owning chunk was never generated always
/// reads as a wall tile.
pub proof fn lemma_wall_default(m: Map<(int, int), Seq<Tile>>, x: int, y: int)
    requires
        !m.contains_key((x / 32, y / 32)),
    ensures
        tile_at(m, x, y) == wall_tile(),
{
}

/// Totality of the world's terrain: in a store of well-formed grids, every
/// position — generated or not, at any coordinate — reads as exactly a wall
/// tile or a floor tile, never anything else.
pub proof fn lemma_tile_total(m: Map<(int, int), Seq<Tile>>, x: int, y: int)
    requires
        store_ok(m),
    ensures
        wall_or_floor(tile_at(m, x, y)),
{
    if m.contains_key((x / 32, y / 32)) {
        lemma_tile_idx_bounds(x % 32, y % 32);
    }
}

/// Seam consistency, east-west: under the store invariant, two horizontally
/// adjacent generated chunks agree at every shared edge cell away from the
/// corners — floor faces floor, wall faces wall.
pub proof fn lemma_seam_consistent_ew(m: Map<(int, int), Seq<Tile>>, cx: int, cy: int, y: int)
    requires
        seams_ok(m),
        m.contains_key((cx, cy)),
        m.contains_key((cx + 1, cy)),
        1 <= y <= 30,
    ensures
        is_floor(m[(cx, cy)][tile_idx(31, y)]) == is_floor(m[(cx + 1, cy)][tile_idx(0, y)]),
{
    assert(seam_matches_ew(m, cx, cy, y));
}

/// Seam consistency, north-south: the vertical counterpart of the east-west
/// law.
pub proof fn lemma_seam_consistent_ns(m: Map<(int, int), Seq<Tile>>, cx: int, cy: int, x: int)
    requires
        seams_ok(m),
        m.contains_key((cx, cy)),
        m.contains_key((cx, cy + 1)),
        1 <= x <= 30,
    ensures
        is_floor(m[(cx, cy)][tile_idx(x, 31)]) == is_floor(m[(cx, cy + 1)][tile_idx(x, 0)]),
{
    assert(seam_matches_ns(m, cx, cy, x));
}

/// The two directions perpendicular to `d`.
pub open spec fn perp_dirs(d: int) -> (int, int) {
    if d == 0 || d == 1 {
        (2, 3)
    } else {
        (0, 1)
    }
}

/// Seam consistency with a single neighbor, at every shared cell: a chunk
/// carved against a store where the neighbor in direction `d` is generated
/// and both perpendicular neighbors are not matches that neighbor at the
/// whole shared edge, corners included. This is exactly the situation of a
/// chunk generated directly beside one existing chunk.
pub proof fn lemma_one_neighbor_seam(
    m: Map<(int, int), Seq<Tile>>,
    cx: int,
    cy: int,
    g: Seq<Tile>,
    d: int,
)
    requires
        store_ok(m),
        grid_ok(g),
        grid_justified(m, cx, cy, g),
        entries_carved(m, cx, cy, g),
        0 <= d < 4,
        nbr_present(m, cx, cy, d),
        !nbr_present(m, cx, cy, perp_dirs(d).0),
        !nbr_present(m, cx, cy, perp_dirs(d).1),
    ensures
        forall|x: int, y: int|
            in_chunk(x, y) && on_edge(d, x, y) ==> is_floor(#[trigger] g[tile_idx(x, y)])
                == is_floor(m[nbr_key(cx, cy, d)][tile_idx(mirror_x(d, x), mirror_y(d, y))]),
{
    assert forall|x: int, y: int|
        in_chunk(x, y) && on_edge(d, x, y) implies is_floor(#[trigger] g[tile_idx(x, y)])
        == is_floor(m[nbr_key(cx, cy, d)][tile_idx(mirror_x(d, x), mirror_y(d, y))]) by {
        lemma_tile_idx_bounds(x, y);
        if is_floor(m[nbr_key(cx, cy, d)][tile_idx(mirror_x(d, x), mirror_y(d, y))]) {
            assert(mirror_floor(m, cx, cy, d, x, y));
            assert(entry_demanded(m, cx, cy, x, y));
        }
        if is_floor(g[tile_idx(x, y)]) {
            assert(floor_justified(m, cx, cy, x, y));
            if write_safe(m, cx, cy, x, y) {
                assert(mirror_floor(m, cx, cy, d, x, y));
            } else {
                let d2 = choose|d2: int|
                    0 <= d2 < 4 && on_edge(d2, x, y) && mirror_floor(m, cx, cy, d2, x, y);
                assert(d2 == d);
            }
        }
    }
}

} // verus!
