//! Errors reported by graph operations.

use vstd::prelude::*;
use crate::graph::CutId;

verus! {

/// An error from a graph operation or from the textual parser.
#[derive(Clone, Copy, Debug, PartialEq, Eq, Structural)]
pub enum GraphError {
    /// The operation may not target the root cut.
    InvalidRootGraphTargetError,
    /// No cut with this id exists in the graph, or the id is not a valid
    /// target for this operation.
    InvalidSubgraphTargetError(CutId),
    /// A cut with this id already exists.
    DuplicateIdError(CutId),
    /// A non-recursive removal targeted a cut that still holds atoms or
    /// child cuts.
    NotEmptyError(CutId),
    /// The text is not a well-formed bracketed graph, or an atom name does
    /// not fit the grammar's `atom` token.
    ParseError,
}

impl GraphError {
    /// A short description, for display by unverified front ends.
    pub fn message(&self) -> (r: &'static str)
        ensures
            r@.len() > 0,
    {
        let r = match self {
            GraphError::InvalidRootGraphTargetError => "cannot target the root cut with this operation",
            GraphError::InvalidSubgraphTargetError(_) => "no such cut, or the cut is not a valid target",
            GraphError::DuplicateIdError(_) => "a cut with this id already exists",
            GraphError::NotEmptyError(_) => "the cut still holds atoms or child cuts",
            GraphError::ParseError => "could not parse a graph from the string",
        };
        proof {
            reveal_strlit("cannot target the root cut with this operation");
            reveal_strlit("no such cut, or the cut is not a valid target");
            reveal_strlit("a cut with this id already exists");
            reveal_strlit("the cut still holds atoms or child cuts");
            reveal_strlit("could not parse a graph from the string");
        }
        r
    }
}

/// The result of a graph operation.
pub type GraphResult<T> = Result<T, GraphError>;

} // verus!
