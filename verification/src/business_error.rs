use vstd::prelude::*;

use crate::analysis_error::AnalysisError;
use crate::engine_error::EngineError;

verus! {

/// A match-level failure: a wrapped rule violation, a wrapped decision
/// failure, or a bidding round in which every seat passed.
#[derive(Debug, Clone, Copy, PartialEq, Eq, Structural)]
pub enum BusinessError {
    Analysis(AnalysisError),
    Engine(EngineError),
    EveryonePassed,
}

impl From<AnalysisError> for BusinessError {
    /// Wraps a decision failure.
    fn from(err: AnalysisError) -> (r: Self) {
        BusinessError::Analysis(err)
    }
}

impl vstd::std_specs::convert::FromSpecImpl<AnalysisError> for BusinessError {
    open spec fn obeys_from_spec() -> bool {
        true
    }

    open spec fn from_spec(err: AnalysisError) -> Self {
        BusinessError::Analysis(err)
    }
}

impl From<EngineError> for BusinessError {
    /// Wraps a rule violation.
    fn from(err: EngineError) -> (r: Self) {
        BusinessError::Engine(err)
    }
}

impl vstd::std_specs::convert::FromSpecImpl<EngineError> for BusinessError {
    open spec fn obeys_from_spec() -> bool {
        true
    }

    open spec fn from_spec(err: EngineError) -> Self {
        BusinessError::Engine(err)
    }
}

} // verus!
