//! The network data model: signals, gates and the network that owns them.

pub mod gates;
pub mod laws;
pub mod model;
pub mod signal;
pub mod store;

pub use gates::{BinaryType, Gate, GateKind, GateView, Lut, NaryType, TernaryType};
pub use model::NetworkView;
pub use signal::{Signal, Source};
pub use store::Network;
