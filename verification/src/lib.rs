//! Word-search engine of a letter-tile puzzle: a rectangular field of
//! identified letter tiles, a dictionary, the greedy search for words along the
//! lines of the field, and the resolve pass that clears matched tiles, lets
//! the rest slide and refills the gaps.

pub mod models;
pub mod resources;
pub mod utils;
