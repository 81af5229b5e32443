//! Ancestry graph of branch tips: the closure of a set of commits under their
//! pairwise merge bases, and its reduction to the edges worth drawing.

pub mod adjacency;
pub mod branches;
pub mod closure;
pub mod commit;
pub mod error;
pub mod graph;
pub mod memo;
pub mod render;
pub mod revisit;
pub mod text;

pub use branches::BranchLabels;
pub use closure::{ClosureBuilder, Request};
pub use commit::Commit;
pub use error::EngineError;
pub use graph::AncestryGraph;
pub use memo::MergeBaseMemo;
