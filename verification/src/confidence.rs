//! How sure the engine is of an answer.
use vstd::prelude::*;

verus! {

/// The confidence band of an answer.
#[derive(Clone, Copy, Debug, PartialEq, Eq, Structural)]
pub enum ConfidenceLevel {
    High,
    Medium,
    Low,
}

} // verus!
