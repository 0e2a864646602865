//! The data of the game: the grid, the dictionary and the letter field.

pub mod array2d;
pub mod corpus;
pub mod field_text;
pub mod letterfield;
pub mod matches;
pub mod pass;
pub mod resolve;
pub mod rng;
pub mod text;
pub mod tile_maps;
