//! Rewrites of logic networks.

pub mod resubstitute;

pub use resubstitute::substitute_node;
