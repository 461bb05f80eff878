//! Reductions, scans and windowed folds over row-major byte arrays.

pub mod shape;
pub mod errors;
pub mod eco;
pub mod array;
pub mod ops;
pub mod fast;
pub mod func;
pub mod generic;
pub mod reduce;
pub mod fold;
pub mod laws;
pub mod inverses;
pub mod primitives;
