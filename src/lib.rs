//! Rules engine of a mine-clearing puzzle: the board model, mine placement,
//! neighbour counts, single and cascading reveals, flags, and the outcome of a
//! game, each stated and proved with Verus.
pub mod app_state;
pub mod board_model;
pub mod coordinates;
pub mod counting;
pub mod laws;
pub mod text;
pub mod tile;
pub mod tile_map;
