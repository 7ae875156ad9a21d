//! Black and white tiles on a hexagonal floor.
//!
//! A path of compass tokens (`e`, `se`, `sw`, `w`, `nw`, `ne`) leads from the
//! reference tile to some other tile, addressed in axial coordinates `(q, r)`.
//! Flipping the tile at the end of every path of a list gives the initial set
//! of black tiles, and a neighbour-counting rule then turns that set into the
//! next one, generation after generation.
//!
//! - [`grid`]: cells, the six directions and the six cells around a cell;
//! - [`path`]: decoding a path into directions and into the tile it leads to;
//! - [`tile_set`]: the set of black tiles;
//! - [`layout`]: the initial floor that a list of paths gives;
//! - [`generation`]: the rule that says which tiles are black on the next day;
//! - [`game`]: the floor on one day, advanced by that rule.

pub mod game;
pub mod generation;
pub mod grid;
pub mod layout;
pub mod path;
pub mod tile_set;

pub use crate::grid::{Coordinate, Direction};
pub use crate::game::TileGame;
pub use crate::layout::get_black_tiles;
pub use crate::path::{Directions, ToDirections, TokenError};
pub use crate::tile_set::TileSet;
