//! Errors reported while a batch of actions runs.

use vstd::prelude::*;
use crate::graph::CutId;
use crate::graph::error::GraphError;

verus! {

/// An error from applying a batch of actions to a graph.
#[derive(Clone, Copy, Debug, PartialEq, Eq, Structural)]
pub enum ActionError {
    /// A `Future` slot was used before any `AddSubgraph` bound it.
    UndefinedFutureGraph(usize),
    /// An `AddSubgraph` named an existing id for its new cut.
    SubgraphIdAlreadyExists(CutId),
    /// The underlying graph operation failed.
    GraphError(GraphError),
}

/// The result of applying a batch of actions.
pub type ActionResult<T> = Result<T, ActionError>;

} // verus!
