//! Conway's Game of Life on a bounded square board whose one-cell border ring
//! is permanently dead, in a dense and in a sparse representation, with
//! plaintext and run-length-encoded pattern import.
pub mod rules;
pub mod grid;
pub mod dense;
pub mod pattern;
pub mod sparse;
pub mod laws;
pub mod board;
