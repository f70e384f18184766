use vstd::prelude::*;

use crate::engine_error::EngineError;

verus! {

/// A decision-search failure: fatal to the decision, not to the match.
#[derive(Debug, Clone, Copy, PartialEq, Eq, Structural)]
pub enum AnalysisError {
    /// The seat has no legal card at all.
    NoCardToPlay,
    /// Every legal move of the node was already expanded.
    AnalysisFinished,
    /// A rule violation surfaced inside a simulation.
    Engine(EngineError),
    /// An internal conversion that should always succeed failed.
    RustError,
    /// Any other unexpected failure inside a simulation.
    Other,
}

} // verus!
