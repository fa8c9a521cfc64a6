//! Levenshtein (edit) distance between two words, computed in several ways:
//! by plain recursion over the characters, by recursion over ASCII bytes, and by
//! dynamic programming, either with the full table, with two rows of it, or
//! along its anti-diagonals with vectors of lanes.
//! Every function is verified against the recurrence in `distance`.

pub mod distance;
pub mod two_row;
pub mod anchored;
mod lanes;
mod wavefront;
mod levenstein;

pub use crate::levenstein::{
    dynamic_ascii_case_sensitive, dynamic_simd_wasteful, dynamic_wasteful, recursive,
    recursive_ascii_case_sens,
};
