//! The request/response boundary for asynchronous front ends.
//!
//! A front end sends a [`Request`] naming a primitive edit or an inference
//! rule, and receives an [`Event::Response`] with the outcome. This boundary
//! is a serialization concern: the semantics live in the graph and calculus
//! modules, and an embedding serializes copies of these types however it
//! likes.

use vstd::prelude::*;
use crate::graph::CutId;

verus! {

/// A message crossing the editor boundary: a request from the front end or
/// the response to one.
#[derive(Debug)]
pub enum Event {
    Request(Request),
    Response(Result<(), String>),
}

/// What a front end may ask of the editor: the primitive edits and the five
/// inference rules.
#[derive(Clone, Debug)]
pub enum Request {
    NewAtom { atom: String, parent: CutId },
    NewSubgraph { parent: CutId },
    MoveSubgraph { target: CutId, dest: CutId },
    DeleteAtom { atom: String, parent: CutId },
    DeleteSubgraph { target: CutId },
    DoubleCutDraw { target: CutId, target_atoms: Vec<String>, target_subgraphs: Vec<CutId> },
    DoubleCutErase { target: CutId },
    Insertion { target: CutId, new_content: String },
    Erasure { target_subgraphs: Vec<CutId>, target_atoms: Vec<(CutId, String)> },
    Iteration {
        backwards: bool,
        parent: CutId,
        parent_atoms: Vec<String>,
        parent_subgraphs: Vec<CutId>,
        target: CutId,
    },
}

} // verus!
