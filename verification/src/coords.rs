//! Integer 2D coordinates used to address grid cells.

use vstd::prelude::*;

verus! {

/// A 2D position. Coordinates may lie outside a grid's bounds; such
/// coordinates are query-only and never addressed for writing.
#[derive(Clone, Copy, PartialEq, Eq, Structural, Debug, Hash)]
pub struct Coord {
    pub x: i32,
    pub y: i32,
}

impl Coord {
    pub fn new(x: i32, y: i32) -> (c: Coord)
        ensures
            c == (Coord { x, y }),
    {
        Coord { x, y }
    }
}

} // verus!
