//! Wave function collapse on a rectangular grid of tiles.
//!
//! A small sample grid is cut into square patterns; a wave of the wanted size
//! is then collapsed cell by cell so that every decided cell is the centre of
//! one of those patterns.
//!
//! - `utils`: grids, positions, and the neighbors of a position.
//! - `tile`: what is asked of a type of tiles.
//! - `pattern`: patterns and the catalog of a sample.
//! - `cell`, `model`, `laws`, `wave`: the cells of a wave, the wave as a mathematical
//!   value, what holds of every wave, and the wave itself.
//! - `rng`, `order`: the generator that breaks ties, and the sort that finds the cell to
//!   collapse next.
//! - `tile_set`, `tile_map`: the maps of tiles from which samples are taken.
//! - `text`: grids, patterns and tiles as texts.
//! - `wfc`: the engine's types under one path.

pub mod cell;
pub mod laws;
pub mod model;
pub mod order;
pub mod pattern;
pub mod rng;
pub mod text;
pub mod tile;
pub mod tile_map;
pub mod tile_set;
pub mod utils;
pub mod wave;
pub mod wfc;
