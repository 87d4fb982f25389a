//! A depth-first maze generator over a fixed rectangular grid of packed cells.
pub mod cell;
pub mod position;
pub mod maze;
mod rng;
