//! A small feed-forward neural-network kernel over a dense, row-major matrix.
//!
//! Everything is generic over the scalar type: the arithmetic comes from the
//! standard operator traits, so the same code runs on `f32` in an application
//! and on any type whose operators Verus knows exactly.
pub mod num;
pub mod matrix;
pub mod network;
