//! World positions: signed integer coordinates in unbounded world space.

use vstd::prelude::*;

verus! {

/// A position in infinite world space. A plain value: two signed coordinates.
#[derive(Clone, Copy, PartialEq, Eq, Hash, Debug, Structural)]
pub struct Pos {
    pub x: i32,
    pub y: i32,
}

impl Pos {
    /// Builds the position with the given coordinates.
    pub fn new(x: i32, y: i32) -> (p: Pos)
        ensures
            p.x == x,
            p.y == y,
    {
        Pos { x, y }
    }

    /// The position displaced by `(dx, dy)`.
    pub fn offset(&self, dx: i32, dy: i32) -> (p: Pos)
        requires
            i32::MIN <= self.x + dx <= i32::MAX,
            i32::MIN <= self.y + dy <= i32::MAX,
        ensures
            p.x == self.x + dx,
            p.y == self.y + dy,
    {
        Pos { x: self.x + dx, y: self.y + dy }
    }
}

} // verus!
