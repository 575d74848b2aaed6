//! Lucky numbers: for every base integer `b`, the non-negative combinations of
//! the prime factors of `b` that stay within `b - 1` give constructions, sums of
//! weighted terms; a value is lucky when some construction realizes it.
pub mod chart;
pub mod composition;
pub mod construction;
pub mod engine;
pub mod factors;
pub mod model;
pub mod render;
