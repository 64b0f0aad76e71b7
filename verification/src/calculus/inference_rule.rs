//! The five inference rules of the alpha calculus.
//!
//! A rule is validated against the current graph and compiled into a batch
//! of actions; compilation never mutates the graph.

pub mod double_cut_draw;
pub mod double_cut_erase;
pub mod erasure;
pub mod insertion;
pub mod iteration;

use vstd::prelude::*;
use crate::atom::Atom;
use crate::calculus::action::Action;
use crate::calculus::error::ProofResult;
use crate::graph::{Graph, CutId};
use crate::graph::subgraph::atom_names;
use self::double_cut_draw::{gen_actions_from_double_cut_draw, double_cut_draw_post};
use self::double_cut_erase::{gen_actions_from_double_cut_erase, double_cut_erase_post};
use self::erasure::{gen_actions_from_erasure, erasure_post, pairs_view};
use self::insertion::{gen_actions_from_insertion, insertion_post};
use self::iteration::{gen_actions_from_iteration, iteration_post};

verus! {

/// One application of one of the five sound rewrite rules, with its
/// selection.
#[derive(Debug)]
pub enum InferenceRule {
    /// Wraps the selected atoms and child cuts of `target` in two fresh
    /// nested cuts inside `target`.
    DoubleCutDraw {
        target: CutId,
        target_atoms: Vec<Atom>,
        target_subgraphs: Vec<CutId>,
    },
    /// Removes the double cut whose outer ring is `target`, promoting the
    /// inner ring's contents to `target`'s parent.
    DoubleCutErase { target: CutId },
    /// Parses `new_content` and draws it inside the odd-level cut `target`.
    Insertion { target: CutId, new_content: String },
    /// Deletes the listed atoms and the subtrees of the listed cuts, all of
    /// which must sit at even levels.
    Erasure { target_subgraphs: Vec<CutId>, target_atoms: Vec<(CutId, Atom)> },
    /// Forward (iteration), copies the selected atoms and subtrees of
    /// `parent` into `target`, which `parent` must strictly enclose.
    /// Backward (deiteration), deletes the selected atoms and subtrees
    /// from `parent` — taking such a copy out again — with `target` a
    /// strict ancestor of `parent`.
    Iteration {
        backwards: bool,
        parent: CutId,
        parent_atoms: Vec<Atom>,
        parent_subgraphs: Vec<CutId>,
        target: CutId,
    },
}

impl InferenceRule {
    /// Validates this rule against `graph` and compiles it to the batch of
    /// actions that applies it.
    pub fn gen_actions_from_rule(&self, graph: &Graph) -> (r: ProofResult<Vec<Action>>)
        requires
            graph.well_formed(),
        ensures
            match *self {
                InferenceRule::DoubleCutDraw { target, target_atoms, target_subgraphs } =>
                    double_cut_draw_post(
                    graph@,
                    target,
                    atom_names(target_atoms@),
                    target_subgraphs@,
                    r,
                ),
                InferenceRule::DoubleCutErase { target } => double_cut_erase_post(
                    graph@,
                    target,
                    r,
                ),
                InferenceRule::Insertion { target, new_content } => insertion_post(
                    graph@,
                    target,
                    new_content@,
                    r,
                ),
                InferenceRule::Erasure { target_subgraphs, target_atoms } => erasure_post(
                    graph@,
                    target_subgraphs@,
                    pairs_view(target_atoms@),
                    r,
                ),
                InferenceRule::Iteration {
                    backwards,
                    parent,
                    parent_atoms,
                    parent_subgraphs,
                    target,
                } => iteration_post(
                    graph@,
                    backwards,
                    parent,
                    atom_names(parent_atoms@),
                    parent_subgraphs@,
                    target,
                    r,
                ),
            },
    {
        match self {
            InferenceRule::DoubleCutDraw { .. } => gen_actions_from_double_cut_draw(self, graph),
            InferenceRule::DoubleCutErase { .. } => gen_actions_from_double_cut_erase(self, graph),
            InferenceRule::Insertion { .. } => gen_actions_from_insertion(self, graph),
            InferenceRule::Erasure { .. } => gen_actions_from_erasure(self, graph),
            InferenceRule::Iteration { .. } => gen_actions_from_iteration(self, graph),
        }
    }
}

} // verus!
