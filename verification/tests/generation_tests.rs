use dungen::chunk::{Chunk, CHUNK_SIZE};
use dungen::map::MapManager;
use dungen::pos::Pos;
use dungen::rng::Rng;
use dungen::tile::Tile;

#[test]
fn lookup_is_deterministic() {
    let mut map = MapManager::new();
    map.generate_chunk_if_needed(0, 0);
    for y in -5..40 {
        for x in -5..40 {
            let p = Pos::new(x, y);
            assert_eq!(map.get_tile(p), map.get_tile(p));
        }
    }
}

#[test]
fn ungenerated_space_reads_as_wall() {
    let mut map = MapManager::new();
    assert_eq!(map.get_tile(Pos::new(0, 0)), Tile::wall());
    assert_eq!(map.get_tile(Pos::new(-1000, 1000)), Tile::wall());
    map.generate_chunk_if_needed(0, 0);
    // A chunk coordinate never generated still reads as solid rock.
    assert_eq!(map.get_tile(Pos::new(5 * CHUNK_SIZE + 3, 0)), Tile::wall());
    assert_eq!(map.get_tile(Pos::new(0, -CHUNK_SIZE)), Tile::wall());
}

#[test]
fn generation_is_idempotent() {
    let mut map = MapManager::new();
    map.generate_chunk_if_needed(0, 0);
    let mut before: Vec<Tile> = Vec::new();
    for y in 0..CHUNK_SIZE {
        for x in 0..CHUNK_SIZE {
            before.push(map.get_tile(Pos::new(x, y)));
        }
    }
    map.generate_chunk_if_needed(0, 0);
    let mut i: usize = 0;
    for y in 0..CHUNK_SIZE {
        for x in 0..CHUNK_SIZE {
            assert_eq!(map.get_tile(Pos::new(x, y)), before[i]);
            i += 1;
        }
    }
}

#[test]
fn committed_chunks_never_change() {
    let mut map = MapManager::new();
    map.generate_chunk_if_needed(0, 0);
    let mut before: Vec<Tile> = Vec::new();
    for y in 0..CHUNK_SIZE {
        for x in 0..CHUNK_SIZE {
            before.push(map.get_tile(Pos::new(x, y)));
        }
    }
    // Generating every surrounding chunk must leave (0,0) untouched.
    for cy in -1..=1 {
        for cx in -1..=1 {
            map.generate_chunk_if_needed(cx, cy);
        }
    }
    let mut i: usize = 0;
    for y in 0..CHUNK_SIZE {
        for x in 0..CHUNK_SIZE {
            assert_eq!(map.get_tile(Pos::new(x, y)), before[i]);
            i += 1;
        }
    }
}

#[test]
fn generated_chunk_has_floor() {
    let mut map = MapManager::with_seed(7);
    map.generate_chunk_if_needed(3, -2);
    let mut floors: u32 = 0;
    for y in 0..CHUNK_SIZE {
        for x in 0..CHUNK_SIZE {
            if map.get_tile(Pos::new(3 * CHUNK_SIZE + x, -2 * CHUNK_SIZE + y)).glyph == '.' {
                floors += 1;
            }
        }
    }
    assert!(floors > 0);
}

#[test]
fn extreme_coordinates_yield_only_terrain() {
    let mut map = MapManager::new();
    map.generate_chunk_if_needed(100000, 100000);
    assert!(map.has_chunk(100000, 100000));
    let chunk = map.chunk_at(100000, 100000).unwrap();
    for y in 0..CHUNK_SIZE {
        for x in 0..CHUNK_SIZE {
            let t = *chunk.get_tile(x, y).unwrap();
            assert!(t == Tile::wall() || t == Tile::floor());
        }
    }
}

#[test]
fn north_south_seam_is_consistent() {
    let mut map = MapManager::with_seed(99);
    map.generate_chunk_if_needed(0, 0);
    map.generate_chunk_if_needed(0, 1);
    let north = map.chunk_at(0, 0).unwrap();
    let south = map.chunk_at(0, 1).unwrap();
    for x in 0..CHUNK_SIZE {
        let t0 = north.get_tile(x, CHUNK_SIZE - 1).unwrap();
        let t1 = south.get_tile(x, 0).unwrap();
        assert_eq!(t0.glyph == '.', t1.glyph == '.');
    }
}

#[test]
fn frontier_chunk_keeps_an_exit() {
    let mut map = MapManager::with_seed(12345);
    map.generate_chunk_if_needed(7, 9);
    let chunk = map.chunk_at(7, 9).unwrap();
    let mut edge_floor = false;
    for i in 0..CHUNK_SIZE {
        edge_floor |= chunk.get_tile(i, 0).unwrap().glyph == '.';
        edge_floor |= chunk.get_tile(i, CHUNK_SIZE - 1).unwrap().glyph == '.';
        edge_floor |= chunk.get_tile(0, i).unwrap().glyph == '.';
        edge_floor |= chunk.get_tile(CHUNK_SIZE - 1, i).unwrap().glyph == '.';
    }
    assert!(edge_floor);
}

#[test]
fn entry_points_are_mutually_reachable() {
    // Two hand-made neighbors with floor on the shared edges force four
    // mandatory entry points, far apart, on the chunk generated between
    // them; connectivity repair must join them all.
    let mut west = Chunk::new(0, 0);
    west.set_tile(CHUNK_SIZE - 1, 5, Tile::floor());
    west.set_tile(CHUNK_SIZE - 1, 25, Tile::floor());
    let mut east = Chunk::new(2, 0);
    east.set_tile(0, 8, Tile::floor());
    east.set_tile(0, 28, Tile::floor());
    let mut map = MapManager { chunks: vec![west, east], rng: Rng::new(2024) };
    map.generate_chunk_if_needed(1, 0);

    let chunk = map.chunk_at(1, 0).unwrap();
    let entries = [(0, 5), (0, 25), (CHUNK_SIZE - 1, 8), (CHUNK_SIZE - 1, 28)];
    for &(ex, ey) in entries.iter() {
        assert_eq!(chunk.get_tile(ex, ey).unwrap().glyph, '.');
    }

    // Flood fill over floor tiles from the first entry point.
    let mut visited = vec![false; (CHUNK_SIZE * CHUNK_SIZE) as usize];
    let mut queue = vec![(entries[0].0, entries[0].1)];
    visited[(entries[0].1 * CHUNK_SIZE + entries[0].0) as usize] = true;
    while let Some((x, y)) = queue.pop() {
        for &(dx, dy) in [(0, 1), (0, -1), (1, 0), (-1, 0)].iter() {
            let (nx, ny) = (x + dx, y + dy);
            if nx >= 0 && nx < CHUNK_SIZE && ny >= 0 && ny < CHUNK_SIZE {
                let idx = (ny * CHUNK_SIZE + nx) as usize;
                if !visited[idx] && chunk.get_tile(nx, ny).unwrap().glyph == '.' {
                    visited[idx] = true;
                    queue.push((nx, ny));
                }
            }
        }
    }
    for &(ex, ey) in entries.iter() {
        assert!(
            visited[(ey * CHUNK_SIZE + ex) as usize],
            "entry point ({},{}) unreachable from ({},{})",
            ex,
            ey,
            entries[0].0,
            entries[0].1
        );
    }
}

#[test]
fn equal_seeds_explore_equal_worlds() {
    let mut a = MapManager::with_seed(42);
    let mut b = MapManager::with_seed(42);
    a.generate_chunk_if_needed(0, 0);
    a.generate_chunk_if_needed(1, 0);
    b.generate_chunk_if_needed(0, 0);
    b.generate_chunk_if_needed(1, 0);
    for y in 0..CHUNK_SIZE {
        for x in 0..2 * CHUNK_SIZE {
            let p = Pos::new(x, y);
            assert_eq!(a.get_tile(p), b.get_tile(p));
        }
    }
}

#[test]
fn spawn_lands_on_floor() {
    let mut map = MapManager::new();
    let spawn = map.find_spawn();
    assert_eq!(map.get_tile(spawn).glyph, '.');
    assert!(spawn.x >= 0 && spawn.x < CHUNK_SIZE);
    assert!(spawn.y >= 0 && spawn.y < CHUNK_SIZE);
}
