//! Tile-grid helpers: the tile flip used by collision normals, and a
//! coordinate clamp.

use vstd::prelude::*;

verus! {

/// A tile is a single cell of the world grid, stored as its opacity.
pub type Tile = u8;

/// The two sides of the game; each reads the grid through its own color.
#[derive(Clone, Copy, Debug, PartialEq, Eq, Structural)]
pub enum Color {
    Black,
    White,
}

/// Reads a tile as one color sees it: black inverts the two extreme
/// values, white (and every intermediate value) reads the tile as it is.
pub fn map_tile_value_via_color(tile: &Tile, color: Color) -> (r: Tile)
    ensures
        r == spec_map_tile_value(*tile, color),
{
    match (tile, color) {
        (0u8, Color::Black) => 255,
        (255u8, Color::Black) => 0,
        _ => *tile,
    }
}

/// What [`map_tile_value_via_color`] returns: 0 and 255 swap under black.
pub open spec fn spec_map_tile_value(tile: Tile, color: Color) -> Tile {
    if color == Color::Black && tile == 0 {
        255
    } else if color == Color::Black && tile == 255 {
        0
    } else {
        tile
    }
}

/// Clamps a pair of signed grid coordinates to unsigned ones: negative
/// components become zero, the rest keep their value.
pub fn i32_to_usize(from: (i32, i32)) -> (r: (usize, usize))
    ensures
        r.0 == if from.0 < 0 { 0int } else { from.0 as int },
        r.1 == if from.1 < 0 { 0int } else { from.1 as int },
{
    let x: usize = if from.0 < 0 { 0 } else { from.0 as usize };
    let y: usize = if from.1 < 0 { 0 } else { from.1 as usize };
    (x, y)
}

} // verus!
