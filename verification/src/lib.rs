//! TMA Engine: the integer and structural core of a toolkit for affine
//! transforms, iterated function systems and recursive branching networks.
//!
//! The branching network keeps its topology (parents, depths, directed edges)
//! here, with each node and edge carrying a caller-chosen payload. The weight
//! validation of an iterated function system and the pixel placement of the
//! renderer also live here.
pub mod geometry;
pub mod render;

pub use geometry::{BranchEdge, BranchGraph, BranchNetwork, BranchNode, IFSBuildError, WeightStatus};
pub use render::Renderer;
