//! A branch-and-reduce solver for minimum vertex cover, with its graph
//! model, reduction rules and lower bounds stated and proved in Verus.

pub mod idset;

pub use idset::IdSet;
pub mod graph;

pub use graph::{Vx, Edge, Graph};
pub mod state;
pub mod cleanup;

pub use state::State;
pub use cleanup::Cleanup;
pub mod idea;
pub mod ideas;

pub use idea::Idea;
pub mod solve;
pub mod connected;
pub mod branch;
pub mod parse;
pub mod sound;

