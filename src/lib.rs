//! Dense square matrix product `A·B` over wrapping `u32` arithmetic, computed
//! in the cache-friendly order of a Hilbert-style space-filling curve.
pub mod curve;
pub mod kernel;
pub mod matrix;
pub mod multiply;
pub mod traversal;
