//! Weighted edit distance between two token sequences, with one optimal
//! alignment reconstructed from the distance matrix and rendered as a
//! three-line visual diff.

pub mod engine;
pub mod input;
pub mod laws;
pub mod model;
mod text;
