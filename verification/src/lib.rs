//! Logic networks with complemented edges: the network itself, its fanout
//! index, forward and reverse levels, and node substitution.

pub mod io;
pub mod network;
pub mod optim;
pub mod utils;

pub use network::{BinaryType, Gate, Lut, NaryType, Network, Signal, Source, TernaryType};
