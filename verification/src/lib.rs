//! A tile puzzle engine: dominoes lie on a rectangular grid, a player hits
//! one of them, and explosive halves take their neighbours along in a chain
//! reaction that is resolved breadth first and scored.

pub mod game;
pub mod pips;
pub mod text;
