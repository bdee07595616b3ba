use dungen::map_gen::{generate_dungeon, is_in_bounds, GRID_HEIGHT, GRID_WIDTH};
use dungen::pos::Pos;
use dungen::rng::Rng;
use dungen::tile::{Tile, TileColor};

#[test]
fn tile_constructors() {
    let w = Tile::wall();
    assert_eq!(w.glyph, '#');
    assert_eq!(w.color, TileColor::DarkGray);
    assert_eq!(w.bg_color, None);

    let f = Tile::floor();
    assert_eq!(f.glyph, '.');
    assert_eq!(f.color, TileColor::LightGray);
    assert_eq!(f.bg_color, None);

    let e = Tile::empty();
    assert_eq!(e.glyph, ' ');
    assert_eq!(e.color, TileColor::Black);
    assert_eq!(e.bg_color, None);

    let m = Tile::monster('g');
    assert_eq!(m.glyph, 'g');
    assert_eq!(m.color, TileColor::White);

    let t = Tile::new('@', TileColor::Green, Some(TileColor::Black));
    assert_eq!(t.glyph, '@');
    assert_eq!(t.color, TileColor::Green);
    assert_eq!(t.bg_color, Some(TileColor::Black));
}

#[test]
fn pos_new_and_offset() {
    let p = Pos::new(3, -4);
    assert_eq!(p.x, 3);
    assert_eq!(p.y, -4);
    let q = p.offset(-5, 10);
    assert_eq!(q, Pos::new(-2, 6));
}

#[test]
fn rng_draws_stay_in_range() {
    let mut rng = Rng::new(7);
    for _ in 0..1000 {
        assert!(rng.gen_range(4) < 4);
        assert!(rng.gen_range(100) < 100);
        assert!(rng.gen_index(3) < 3);
    }
    assert_eq!(Rng::new(0).gen_range(1), 0);
}

#[test]
fn rng_is_reproducible() {
    let mut a = Rng::new(99);
    let mut b = Rng::new(99);
    for _ in 0..100 {
        assert_eq!(a.gen_range(1000), b.gen_range(1000));
    }
}

#[test]
fn fixed_dungeon_layout() {
    let (world, player_start) = generate_dungeon();
    assert_eq!(player_start, Pos::new(40, 12));

    // Monster markers
    assert_eq!(world.get(Pos::new(20, 10)).unwrap().glyph, 'g');
    assert_eq!(world.get(Pos::new(70, 12)).unwrap().glyph, 'o');
    // Rooms and corridor
    assert_eq!(*world.get(Pos::new(15, 10)).unwrap(), Tile::floor());
    assert_eq!(*world.get(Pos::new(45, 10)).unwrap(), Tile::floor());
    assert_eq!(*world.get(Pos::new(70, 9)).unwrap(), Tile::floor());
    // Border walls
    assert_eq!(*world.get(Pos::new(0, 0)).unwrap(), Tile::wall());
    assert_eq!(*world.get(Pos::new(79, 23)).unwrap(), Tile::wall());
    assert_eq!(*world.get(Pos::new(40, 0)).unwrap(), Tile::wall());
    // Empty space
    assert_eq!(*world.get(Pos::new(5, 3)).unwrap(), Tile::empty());
    // Outside the grid
    assert!(world.get(Pos::new(80, 0)).is_none());
    assert!(world.get(Pos::new(0, -1)).is_none());
}

#[test]
fn world_grid_set_overwrites_in_range_only() {
    let (mut world, _) = generate_dungeon();
    world.set(Pos::new(5, 3), Tile::floor());
    assert_eq!(*world.get(Pos::new(5, 3)).unwrap(), Tile::floor());
    // An out-of-range write is silently dropped.
    world.set(Pos::new(200, 3), Tile::floor());
    assert!(world.get(Pos::new(200, 3)).is_none());
}

#[test]
fn bounds_check_excludes_border() {
    assert!(is_in_bounds(Pos::new(1, 1)));
    assert!(is_in_bounds(Pos::new(40, 12)));
    assert!(is_in_bounds(Pos::new(GRID_WIDTH as i32 - 2, GRID_HEIGHT as i32 - 2)));
    assert!(!is_in_bounds(Pos::new(0, 5)));
    assert!(!is_in_bounds(Pos::new(79, 5)));
    assert!(!is_in_bounds(Pos::new(40, 0)));
    assert!(!is_in_bounds(Pos::new(40, 23)));
    assert!(!is_in_bounds(Pos::new(-3, 7)));
}
