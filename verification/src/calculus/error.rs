//! Errors reported when compiling an inference rule.

use vstd::prelude::*;
use crate::graph::error::GraphError;

verus! {

/// An error from compiling an inference rule against a graph.
#[derive(Clone, Debug)]
pub enum ProofError {
    /// The rule's preconditions do not hold; the payload says why.
    InvalidApplicationOfRule(String),
    /// A graph read failed while the rule was validated.
    GraphError(GraphError),
}

/// The result of compiling an inference rule.
pub type ProofResult<T> = Result<T, ProofError>;

} // verus!
