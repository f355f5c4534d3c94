//! Text renderings of a network.

pub mod dot;
pub mod text;

pub use dot::write_dot;
