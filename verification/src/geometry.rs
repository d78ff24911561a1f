//! Iterated-function-system weight validation, the chaos-game iteration and
//! the recursive branching network.
pub mod chaos;
pub mod growth;
pub mod ifs_weights;
pub mod network;

pub use chaos::chaos_game;
pub use ifs_weights::{check_weights, IFSBuildError, WeightStatus};
pub use network::{BranchEdge, BranchGraph, BranchNetwork, BranchNode};
