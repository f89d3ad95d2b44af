//! A word-search engine: finds every dictionary word that can be spelled by a
//! path of adjacent, non-repeating cells of a rectangular letter grid, plus the
//! movement and collision rules of a small snake game.
pub mod grid;
pub mod dictionary;
pub mod sink;
pub mod state;
pub mod search;
pub mod snake;
