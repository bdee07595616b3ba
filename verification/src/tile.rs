//! Tiles: immutable values describing one grid cell.

use vstd::prelude::*;

verus! {

/// A named color, kept as a plain value so that contracts can speak of it.
/// The presentation layer decides what each name looks like on screen.
#[derive(Clone, Copy, PartialEq, Eq, Debug, Structural)]
pub enum TileColor {
    Black,
    DarkGray,
    LightGray,
    White,
    Green,
}

/// One grid cell: a display glyph, a foreground color, and an optional
/// background color. Tiles are immutable; "changing" a tile means overwriting
/// the slot that holds it.
#[derive(Clone, Copy, PartialEq, Eq, Debug, Structural)]
pub struct Tile {
    pub glyph: char,
    pub color: TileColor,
    pub bg_color: Option<TileColor>,
}

/// The value `Tile::wall()` returns.
pub open spec fn wall_tile() -> Tile {
    Tile { glyph: '#', color: TileColor::DarkGray, bg_color: None }
}

/// The value `Tile::floor()` returns.
pub open spec fn floor_tile() -> Tile {
    Tile { glyph: '.', color: TileColor::LightGray, bg_color: None }
}

/// The value `Tile::empty()` returns.
pub open spec fn empty_tile() -> Tile {
    Tile { glyph: ' ', color: TileColor::Black, bg_color: None }
}

/// The value `Tile::monster(glyph)` returns.
pub open spec fn monster_tile(glyph: char) -> Tile {
    Tile { glyph: glyph, color: TileColor::White, bg_color: None }
}

/// Whether a tile is one of the two terrain values generation writes.
pub open spec fn wall_or_floor(t: Tile) -> bool {
    t == wall_tile() || t == floor_tile()
}

impl Tile {
    /// Builds a fully specified tile. Construction always succeeds.
    pub fn new(glyph: char, color: TileColor, bg_color: Option<TileColor>) -> (t: Tile)
        ensures
            t == (Tile { glyph, color, bg_color }),
    {
        Tile { glyph, color, bg_color }
    }

    /// The empty (void) tile.
    pub fn empty() -> (t: Tile)
        ensures
            t == empty_tile(),
    {
        Tile { glyph: ' ', color: TileColor::Black, bg_color: None }
    }

    /// The solid-rock wall tile.
    pub fn wall() -> (t: Tile)
        ensures
            t == wall_tile(),
    {
        Tile { glyph: '#', color: TileColor::DarkGray, bg_color: None }
    }

    /// The navigable floor tile.
    pub fn floor() -> (t: Tile)
        ensures
            t == floor_tile(),
    {
        Tile { glyph: '.', color: TileColor::LightGray, bg_color: None }
    }

    /// A static monster marker with the given glyph.
    pub fn monster(glyph: char) -> (t: Tile)
        ensures
            t == monster_tile(glyph),
    {
        Tile { glyph, color: TileColor::White, bg_color: None }
    }
}

} // verus!
