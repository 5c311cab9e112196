//! Lloyd-style k-means over integer (fixed-point) points, with model selection
//! by the Dunn index.
use vstd::prelude::*;

pub mod geometry;
pub mod points;
pub mod assign;
pub mod group;
pub mod update;
pub mod init;
pub mod engine;
pub mod dunn;
pub mod laws;
pub mod select;

verus! {

/// The ways in which clustering a point set can fail.
#[derive(Debug, Clone, Copy, PartialEq, Eq, Structural)]
pub enum ClusterError {
    /// A coordinate is out of range, the rows differ in dimension, or an id repeats.
    MalformedInput,
    /// Seed ids are missing from the point set, repeat, or are not `k` in number.
    InvalidSeed,
    /// More clusters were requested than there are points.
    InsufficientPoints,
    /// The Dunn index is undefined: fewer than two clusters, or no spread inside them.
    DegenerateMetric,
    /// Every candidate cluster count collapsed during model selection.
    NoValidCandidate,
    /// The engine did not converge within its iteration budget.
    NonConvergence,
}

} // verus!
