//! Search for a shortest Hamiltonian path over a set of planar points,
//! restricted to paths in which every internal vertex turns by at least 90
//! degrees: at each step, the angle subtended at the current point by the
//! previous and the next point must be a right angle or wider.
//!
//! Points carry integer coordinates (callers scale their inputs to a fixed
//! grid).  On that grid the right-angle test is exact: by the law of cosines
//! the turn at `cur` between `prev` and `next` is at least 90 degrees if and
//! only if the squared distances satisfy
//! `d2(cur, prev) + d2(cur, next) <= d2(prev, next)`.
//! Edge lengths are floor square roots of the squared distances, so every
//! quantity the search compares is an exact integer.

pub mod geometry;
pub mod paths;
pub mod precompute;
pub mod tasks;
pub mod engine;
