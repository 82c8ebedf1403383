//! Exact fractions and elementary row operations on matrices of them, with an
//! append-only history of the matrices that a sequence of steps produced.
pub mod numtheory;
pub mod fraction;
pub mod text;
pub mod glyph;
pub mod matrix;
pub mod step;
pub mod session;
