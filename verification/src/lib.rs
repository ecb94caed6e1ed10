//! A solver engine for Minesweeper-style boards: cells with risk scores,
//! constraint propagation from opened cells, a flood that opens what is
//! safe, and a ranked frontier that drives the order of play.
//!
//! The executable types are [`cell::Cell`], [`coords::CoordSet`] and
//! [`env::Env`]. What their operations do is stated over [`model::State`],
//! the state of a game as mathematics.

pub mod score;
pub mod cell;
pub mod grid;
pub mod coords;
pub mod board;
pub mod seqs;
pub mod count;
pub mod model;
pub mod frontier;
pub mod moves;
pub mod flood;
pub mod env;
pub mod opening;
pub mod setup;
pub mod game;
pub mod render;
pub mod laws;
pub mod deduce;
pub mod sound;
pub mod trust;
