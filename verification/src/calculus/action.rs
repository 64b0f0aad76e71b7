//! Reversible primitive mutations, run as ordered batches.
//!
//! A batch of [`Action`]s is applied in order; as it runs it accumulates the
//! inverse actions in front-insertion order, so that the returned batch,
//! applied in order, undoes the forward batch step by step.

pub mod error;

use vstd::prelude::*;
use std::collections::HashMap;
use crate::atom::Atom;
use crate::graph::{Graph, GraphView, CutId, fresh_id, insert_atom_spec, remove_atom_spec,
    insert_node_spec, remove_leaf_spec, move_spec, in_subtree};
use crate::graph::error::GraphError;
use self::error::{ActionError, ActionResult};

verus! {

broadcast use vstd::std_specs::hash::group_hash_axioms, crate::graph::Graph::lemma_well_formed_wf;

/// A reference to a cut from inside a batch: either an id that exists in the
/// graph when the action runs, or a placeholder slot bound by the first
/// `AddSubgraph` of the same batch that names it.
#[derive(Clone, Copy, Debug, PartialEq, Eq, Structural)]
pub enum GraphTarget {
    Exists(CutId),
    Future(usize),
}

/// One primitive, reversible mutation.
#[derive(Clone, Debug)]
pub enum Action {
    /// Adds an atom to a cut (a set add).
    AddAtom { target: GraphTarget, atom: Atom },
    /// Removes an atom from a cut.
    DeleteAtom { target: GraphTarget, atom: Atom },
    /// Links a fresh empty cut under `target`; a `Future` placeholder binds
    /// its (so far unbound) slot to the new id, an `Exists` id is used as
    /// given.
    AddSubgraph { target: GraphTarget, new_subgraph: GraphTarget },
    /// Deletes an empty cut.
    DeleteSubgraph { target: GraphTarget },
    /// Re-parents a cut under another cut.
    MoveSubgraph { target: GraphTarget, dest: GraphTarget },
}

/// An action as seen by specifications: the same shape, with the atom as its
/// name.
pub ghost enum ActionV {
    AddAtom { target: GraphTarget, atom: Seq<char> },
    DeleteAtom { target: GraphTarget, atom: Seq<char> },
    AddSubgraph { target: GraphTarget, new_subgraph: GraphTarget },
    DeleteSubgraph { target: GraphTarget },
    MoveSubgraph { target: GraphTarget, dest: GraphTarget },
}

impl View for Action {
    type V = ActionV;

    open spec fn view(&self) -> ActionV {
        match *self {
            Action::AddAtom { target, atom } => ActionV::AddAtom { target, atom: atom@ },
            Action::DeleteAtom { target, atom } => ActionV::DeleteAtom { target, atom: atom@ },
            Action::AddSubgraph { target, new_subgraph } => ActionV::AddSubgraph {
                target,
                new_subgraph,
            },
            Action::DeleteSubgraph { target } => ActionV::DeleteSubgraph { target },
            Action::MoveSubgraph { target, dest } => ActionV::MoveSubgraph { target, dest },
        }
    }
}

/// The views of a sequence of actions.
pub open spec fn actions_view(s: Seq<Action>) -> Seq<ActionV> {
    s.map_values(|a: Action| a@)
}

/// What a target resolves to under the batch's bindings so far: an `Exists`
/// id resolves to itself, a `Future` slot to its binding, if any.
pub open spec fn resolve_spec(b: Map<usize, CutId>, t: GraphTarget) -> Option<CutId> {
    match t {
        GraphTarget::Exists(id) => Some(id),
        GraphTarget::Future(k) => if b.contains_key(k) {
            Some(b[k])
        } else {
            None
        },
    }
}

/// The step of one action: the new graph, the bindings after the step, and
/// the recorded inverse action (with its targets resolved), or the error the
/// step reports. The graph is unchanged on an error.
pub open spec fn apply_action_spec(g: GraphView, b: Map<usize, CutId>, a: ActionV) -> Result<
    (GraphView, Map<usize, CutId>, ActionV),
    ActionError,
> {
    match a {
        ActionV::AddAtom { target, atom } => match resolve_spec(b, target) {
            None => Err(ActionError::UndefinedFutureGraph(target->Future_0)),
            Some(t) => if !g.nodes.contains_key(t) {
                Err(ActionError::GraphError(GraphError::InvalidSubgraphTargetError(t)))
            } else if !crate::atom::valid_atom_name(atom) {
                Err(ActionError::GraphError(GraphError::ParseError))
            } else {
                Ok(
                    (
                        insert_atom_spec(g, t, atom),
                        b,
                        ActionV::DeleteAtom { target: GraphTarget::Exists(t), atom },
                    ),
                )
            },
        },
        ActionV::DeleteAtom { target, atom } => match resolve_spec(b, target) {
            None => Err(ActionError::UndefinedFutureGraph(target->Future_0)),
            Some(t) => if !g.nodes.contains_key(t) {
                Err(ActionError::GraphError(GraphError::InvalidSubgraphTargetError(t)))
            } else {
                Ok(
                    (
                        remove_atom_spec(g, t, atom),
                        b,
                        ActionV::AddAtom { target: GraphTarget::Exists(t), atom },
                    ),
                )
            },
        },
        ActionV::AddSubgraph { target, new_subgraph } => match resolve_spec(b, target) {
            None => Err(ActionError::UndefinedFutureGraph(target->Future_0)),
            Some(t) => match new_subgraph {
                GraphTarget::Exists(nid) => if g.nodes.contains_key(nid) {
                    Err(ActionError::SubgraphIdAlreadyExists(nid))
                } else if !g.nodes.contains_key(t) {
                    Err(ActionError::GraphError(GraphError::InvalidSubgraphTargetError(t)))
                } else {
                    Ok(
                        (
                            insert_node_spec(g, t, nid),
                            b,
                            ActionV::DeleteSubgraph { target: GraphTarget::Exists(nid) },
                        ),
                    )
                },
                GraphTarget::Future(k) => if b.contains_key(k) {
                    // A slot is bound once, by the first `AddSubgraph` that
                    // names it; naming it again is a slot misuse.
                    Err(ActionError::UndefinedFutureGraph(k))
                } else if !g.nodes.contains_key(t) {
                    Err(ActionError::GraphError(GraphError::InvalidSubgraphTargetError(t)))
                } else {
                    Ok(
                        (
                            insert_node_spec(g, t, fresh_id(g)),
                            b.insert(k, fresh_id(g)),
                            ActionV::DeleteSubgraph {
                                target: GraphTarget::Exists(fresh_id(g)),
                            },
                        ),
                    )
                },
            },
        },
        ActionV::DeleteSubgraph { target } => match resolve_spec(b, target) {
            None => Err(ActionError::UndefinedFutureGraph(target->Future_0)),
            Some(t) => if !g.parent.contains_key(t) {
                Err(ActionError::GraphError(GraphError::InvalidSubgraphTargetError(t)))
            } else if g.nodes[t].atoms.len() != 0 || g.nodes[t].subgraphs.len() != 0 {
                Err(ActionError::GraphError(GraphError::NotEmptyError(t)))
            } else {
                Ok(
                    (
                        remove_leaf_spec(g, t),
                        b,
                        ActionV::AddSubgraph {
                            target: GraphTarget::Exists(g.parent[t]),
                            new_subgraph: GraphTarget::Exists(t),
                        },
                    ),
                )
            },
        },
        ActionV::MoveSubgraph { target, dest } => match resolve_spec(b, target) {
            None => Err(ActionError::UndefinedFutureGraph(target->Future_0)),
            Some(t) => match resolve_spec(b, dest) {
                None => Err(ActionError::UndefinedFutureGraph(dest->Future_0)),
                Some(d) => if !g.parent.contains_key(t) {
                    Err(ActionError::GraphError(GraphError::InvalidSubgraphTargetError(t)))
                } else if !g.nodes.contains_key(d) {
                    Err(ActionError::GraphError(GraphError::InvalidSubgraphTargetError(d)))
                } else if in_subtree(g, d, t) {
                    Err(ActionError::GraphError(GraphError::InvalidSubgraphTargetError(d)))
                } else {
                    Ok(
                        (
                            move_spec(g, t, d),
                            b,
                            ActionV::MoveSubgraph {
                                target: GraphTarget::Exists(t),
                                dest: GraphTarget::Exists(g.parent[t]),
                            },
                        ),
                    )
                },
            },
        },
    }
}

/// The fold of a batch from a given graph and set of bindings: the final
/// graph, bindings and accumulated inverse batch (in front-insertion order),
/// or, on the first failing action, the graph at that point and the error.
pub open spec fn apply_batch_spec(g: GraphView, b: Map<usize, CutId>, acts: Seq<ActionV>) -> Result<
    (GraphView, Map<usize, CutId>, Seq<ActionV>),
    (GraphView, ActionError),
>
    decreases acts.len(),
{
    if acts.len() == 0 {
        Ok((g, b, Seq::empty()))
    } else {
        match apply_action_spec(g, b, acts[0]) {
            Err(e) => Err((g, e)),
            Ok((g1, b1, inv)) => match apply_batch_spec(g1, b1, acts.drop_first()) {
                Ok((g2, b2, invs)) => Ok((g2, b2, invs.push(inv))),
                Err(p) => Err(p),
            },
        }
    }
}

/// No action moves the root: the root of the graph a batch produces (or
/// leaves behind on an error) is the root it started from.
pub proof fn lemma_batch_preserves_root(g: GraphView, b: Map<usize, CutId>, acts: Seq<ActionV>)
    ensures
        match apply_batch_spec(g, b, acts) {
            Ok((g2, b2, invs)) => g2.root == g.root,
            Err((ge, e)) => ge.root == g.root,
        },
    decreases acts.len(),
{
    if acts.len() > 0 {
        match apply_action_spec(g, b, acts[0]) {
            Err(e) => {},
            Ok((g1, b1, inv)) => {
                assert(g1.root == g.root);
                lemma_batch_preserves_root(g1, b1, acts.drop_first());
            },
        }
    }
}

/// The overall outcome of a batch whose prefix has already run, leaving the
/// accumulated inverses `acc`.
pub open spec fn batch_outcome_with(
    g: GraphView,
    b: Map<usize, CutId>,
    rest: Seq<ActionV>,
    acc: Seq<ActionV>,
) -> Result<(GraphView, Map<usize, CutId>, Seq<ActionV>), (GraphView, ActionError)> {
    match apply_batch_spec(g, b, rest) {
        Ok((g2, b2, invs)) => Ok((g2, b2, invs + acc)),
        Err(p) => Err(p),
    }
}

/// Resolves a target against the bindings accumulated so far.
fn resolve_target(target: &GraphTarget, m: &HashMap<usize, CutId>) -> (r: ActionResult<CutId>)
    ensures
        match r {
            Ok(id) => resolve_spec(m@, *target) == Some(id),
            Err(e) => resolve_spec(m@, *target) is None && e
                == ActionError::UndefinedFutureGraph((*target)->Future_0),
        },
{
    match target {
        GraphTarget::Exists(x) => Ok(*x),
        GraphTarget::Future(x) => match m.get(x) {
            Some(id) => Ok(*id),
            None => Err(ActionError::UndefinedFutureGraph(*x)),
        },
    }
}

impl Action {
    /// Runs `actions` in order against `graph` and returns the inverse
    /// batch, which undoes them when applied in order. If an action fails,
    /// the mutations already performed are kept, as the contract states.
    pub fn apply_actions(actions: Vec<Action>, graph: &mut Graph) -> (r: ActionResult<Vec<Action>>)
        requires
            old(graph).well_formed(),
        ensures
            final(graph).well_formed(),
            match apply_batch_spec(old(graph)@, Map::empty(), actions_view(actions@)) {
                Ok((g2, b2, invs)) => r matches Ok(v) && final(graph)@ == g2 && actions_view(v@)
                    == invs,
                Err((ge, e)) => r matches Err(e2) && e2 == e && final(graph)@ == ge,
            },
    {
        let ghost g0 = old(graph)@;
        let ghost full = actions_view(actions@);
        let mut reversed_actions: Vec<Action> = Vec::new();
        let mut matched_future_targets: HashMap<usize, CutId> = HashMap::new();
        let n = actions.len();
        proof {
            assert(full.skip(0) =~= full);
            assert(matched_future_targets@ =~= Map::<usize, CutId>::empty());
            assert(actions_view(reversed_actions@) =~= Seq::<ActionV>::empty());
            match apply_batch_spec(g0, Map::empty(), full) {
                Ok((g2, b2, invs)) => {
                    assert(invs + actions_view(reversed_actions@) =~= invs);
                },
                Err(p) => {},
            }
        }
        for i in 0..n
            invariant
                n == actions@.len(),
                g0 == old(graph)@,
                full == actions_view(actions@),
                graph.well_formed(),
                apply_batch_spec(g0, Map::empty(), full) == batch_outcome_with(
                    graph@,
                    matched_future_targets@,
                    full.skip(i as int),
                    actions_view(reversed_actions@),
                ),
        {
            let ghost gpre = graph@;
            let ghost bpre = matched_future_targets@;
            let ghost rest = full.skip(i as int);
            proof {
                assert(rest[0] == full[i as int]);
                assert(full[i as int] == actions@[i as int]@);
                assert(rest.drop_first() =~= full.skip(i + 1));
            }
            proof {
                graph.lemma_well_formed_wf();
            }
            let a = &actions[i];
            let step: ActionResult<Action> = match a {
                Action::AddAtom { target, atom } => {
                    match resolve_target(target, &matched_future_targets) {
                        Err(e) => Err(e),
                        Ok(t) => match graph.insert_atom(t, atom.clone()) {
                            Err(ge) => Err(ActionError::GraphError(ge)),
                            Ok(()) => Ok(
                                Action::DeleteAtom {
                                    target: GraphTarget::Exists(t),
                                    atom: atom.clone(),
                                },
                            ),
                        },
                    }
                },
                Action::DeleteAtom { target, atom } => {
                    match resolve_target(target, &matched_future_targets) {
                        Err(e) => Err(e),
                        Ok(t) => match graph.remove_atom_from_subgraph(t, atom) {
                            Err(ge) => Err(ActionError::GraphError(ge)),
                            Ok(_) => Ok(
                                Action::AddAtom {
                                    target: GraphTarget::Exists(t),
                                    atom: atom.clone(),
                                },
                            ),
                        },
                    }
                },
                Action::AddSubgraph { target, new_subgraph } => {
                    match resolve_target(target, &matched_future_targets) {
                        Err(e) => Err(e),
                        Ok(t) => match new_subgraph {
                            GraphTarget::Exists(new_id) => {
                                if graph.level_of(*new_id).is_ok() {
                                    Err(ActionError::SubgraphIdAlreadyExists(*new_id))
                                } else {
                                    match graph.insert_subgraph_with_id(*new_id, t) {
                                        Err(ge) => Err(ActionError::GraphError(ge)),
                                        Ok(rid) => Ok(
                                            Action::DeleteSubgraph {
                                                target: GraphTarget::Exists(rid),
                                            },
                                        ),
                                    }
                                }
                            },
                            GraphTarget::Future(x) => {
                                if matched_future_targets.contains_key(x) {
                                    Err(ActionError::UndefinedFutureGraph(*x))
                                } else {
                                match graph.insert_subgraph(t) {
                                    Err(ge) => Err(ActionError::GraphError(ge)),
                                    Ok(new_id) => {
                                        matched_future_targets.insert(*x, new_id);
                                        Ok(
                                            Action::DeleteSubgraph {
                                                target: GraphTarget::Exists(new_id),
                                            },
                                        )
                                    },
                                }
                                }
                            },
                        },
                    }
                },
                Action::DeleteSubgraph { target } => {
                    match resolve_target(target, &matched_future_targets) {
                        Err(e) => Err(e),
                        Ok(t) => match graph.parent_of(t) {
                            Err(ge) => Err(ActionError::GraphError(ge)),
                            Ok(p) => match graph.remove_subgraph(t, false) {
                                Err(ge) => Err(ActionError::GraphError(ge)),
                                Ok(()) => Ok(
                                    Action::AddSubgraph {
                                        target: GraphTarget::Exists(p),
                                        new_subgraph: GraphTarget::Exists(t),
                                    },
                                ),
                            },
                        },
                    }
                },
                Action::MoveSubgraph { target, dest } => {
                    match resolve_target(target, &matched_future_targets) {
                        Err(e) => Err(e),
                        Ok(t) => match resolve_target(dest, &matched_future_targets) {
                            Err(e) => Err(e),
                            Ok(d) => match graph.parent_of(t) {
                                Err(ge) => Err(ActionError::GraphError(ge)),
                                Ok(s) => match graph.move_subgraph(t, d) {
                                    Err(ge) => Err(ActionError::GraphError(ge)),
                                    Ok(()) => Ok(
                                        Action::MoveSubgraph {
                                            target: GraphTarget::Exists(t),
                                            dest: GraphTarget::Exists(s),
                                        },
                                    ),
                                },
                            },
                        },
                    }
                },
            };
            match step {
                Err(e) => {
                    proof {
                        graph.lemma_well_formed_wf();
                        assert(apply_action_spec(gpre, bpre, rest[0]) == Err::<
                            (GraphView, Map<usize, CutId>, ActionV),
                            ActionError,
                        >(e));
                        assert(graph@ == gpre);
                        assert(matched_future_targets@ == bpre);
                        assert(rest.len() == n - i);
                        assert(apply_batch_spec(gpre, bpre, rest) == Err::<
                            (GraphView, Map<usize, CutId>, Seq<ActionV>),
                            (GraphView, ActionError),
                        >((gpre, e)));
                        assert(apply_batch_spec(g0, Map::empty(), full) == Err::<
                            (GraphView, Map<usize, CutId>, Seq<ActionV>),
                            (GraphView, ActionError),
                        >((gpre, e)));
                    }
                    return Err(e);
                },
                Ok(inv) => {
                    proof {
                        assert(apply_action_spec(gpre, bpre, rest[0]) == Ok::<
                            (GraphView, Map<usize, CutId>, ActionV),
                            ActionError,
                        >((graph@, matched_future_targets@, inv@)));
                    }
                    let ghost acc_old = actions_view(reversed_actions@);
                    let ghost rev_old = reversed_actions@;
                    reversed_actions.insert(0, inv);
                    proof {
                        rev_old.insert_ensures(0, inv);
                        assert(actions_view(reversed_actions@) =~= seq![inv@] + acc_old);
                        match apply_batch_spec(graph@, matched_future_targets@, full.skip(i + 1)) {
                            Ok((g2, b2, invs)) => {
                                assert(invs.push(inv@) + acc_old =~= invs + (seq![inv@]
                                    + acc_old));
                            },
                            Err(p) => {},
                        }
                    }
                },
            }
        }
        proof {
            assert(full.skip(n as int) =~= Seq::<ActionV>::empty());
            match apply_batch_spec(graph@, matched_future_targets@, full.skip(n as int)) {
                Ok((g2, b2, invs)) => {
                    assert(invs + actions_view(reversed_actions@) =~= actions_view(
                        reversed_actions@,
                    ));
                },
                Err(p) => {},
            }
        }
        Ok(reversed_actions)
    }
}

} // verus!
