//! Helpers on machine integers and tensor shapes.
pub mod arith;
pub mod shape;
