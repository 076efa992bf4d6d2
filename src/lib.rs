//! Route finding through a two-dimensional cellular automaton that evolves one
//! generation for every step the agent takes.
pub mod automaton;
pub mod bitgrid;
pub mod grid;
pub mod options;
pub mod parse;
pub mod position;
pub mod puzzle;
pub mod search;
pub mod text;
pub mod trail;
