//! The Double-Cut Erase rule: a pair of nested cuts with nothing between
//! them may be removed, its contents moving up two levels.

use vstd::prelude::*;
use crate::atom::Atom;
use crate::calculus::action::{Action, ActionV, GraphTarget, actions_view};
use crate::calculus::error::{ProofError, ProofResult};
use crate::calculus::inference_rule::InferenceRule;
use crate::calculus::inference_rule::insertion::sel_err_message;
use crate::graph::{Graph, GraphView, CutId};
use crate::graph::subgraph::atom_names;
use crate::graph::error::GraphError;

verus! {

broadcast use crate::graph::Graph::lemma_well_formed_wf, Seq::lemma_push_map_commute;

/// The atom part: each atom of the inner ring moves to the grandparent.
pub open spec fn dce_atom_actions(inner: CutId, p: CutId, names: Seq<Seq<char>>) -> Seq<ActionV>
    decreases names.len(),
{
    if names.len() == 0 {
        Seq::empty()
    } else {
        dce_atom_actions(inner, p, names.drop_last()) + seq![
            ActionV::DeleteAtom { target: GraphTarget::Exists(inner), atom: names.last() },
            ActionV::AddAtom { target: GraphTarget::Exists(p), atom: names.last() },
        ]
    }
}

/// The child part: each grandchild moves to the grandparent.
pub open spec fn dce_move_actions(p: CutId, subs: Seq<CutId>) -> Seq<ActionV>
    decreases subs.len(),
{
    if subs.len() == 0 {
        Seq::empty()
    } else {
        dce_move_actions(p, subs.drop_last()) + seq![
            ActionV::MoveSubgraph {
                target: GraphTarget::Exists(subs.last()),
                dest: GraphTarget::Exists(p),
            },
        ]
    }
}

/// The whole batch: empty the inner ring into the grandparent, then delete
/// the inner ring and the outer ring.
pub open spec fn dce_actions(
    t: CutId,
    inner: CutId,
    p: CutId,
    names: Seq<Seq<char>>,
    subs: Seq<CutId>,
) -> Seq<ActionV> {
    dce_atom_actions(inner, p, names) + dce_move_actions(p, subs) + seq![
        ActionV::DeleteSubgraph { target: GraphTarget::Exists(inner) },
        ActionV::DeleteSubgraph { target: GraphTarget::Exists(t) },
    ]
}

/// What compiling a Double-Cut Erase must return: `t` must exist, hold no
/// atoms and exactly one child (the inner ring), and must not be the root.
pub open spec fn double_cut_erase_post(g: GraphView, t: CutId, r: ProofResult<Vec<Action>>) -> bool {
    if !g.nodes.contains_key(t) {
        r matches Err(ProofError::GraphError(e)) && e == GraphError::InvalidSubgraphTargetError(t)
    } else if g.nodes[t].atoms.len() != 0 || g.nodes[t].subgraphs.len() != 1 {
        r matches Err(ProofError::InvalidApplicationOfRule(_))
    } else if !g.parent.contains_key(t) {
        r matches Err(ProofError::GraphError(e)) && e == GraphError::InvalidSubgraphTargetError(t)
    } else {
        let inner = g.nodes[t].subgraphs[0];
        let p = g.parent[t];
        r matches Ok(v) && actions_view(v@) == dce_actions(
            t,
            inner,
            p,
            g.nodes[inner].atoms,
            g.nodes[inner].subgraphs,
        )
    }
}

/// Compiles a Double-Cut Erase: validates the double cut and emits the
/// batch that promotes the inner ring's contents and deletes both rings.
pub fn gen_actions_from_double_cut_erase(rule: &InferenceRule, graph: &Graph) -> (r: ProofResult<
    Vec<Action>,
>)
    requires
        graph.well_formed(),
        rule is DoubleCutErase,
    ensures
        double_cut_erase_post(graph@, rule->DoubleCutErase_target, r),
{
    let target: CutId = match rule {
        InferenceRule::DoubleCutErase { target } => *target,
        _ => {
            proof {
                assert(false);
            }
            return Err(ProofError::InvalidApplicationOfRule(String::new()));
        },
    };
    let ghost g = graph@;
    let empty_and_single = match graph.atoms_of(target) {
        Err(e) => {
            return Err(ProofError::GraphError(e));
        },
        Ok(v) => v.len() == 0,
    };
    let single = match graph.subgraphs_of(target) {
        Err(e) => {
            proof {
                assert(false);
            }
            return Err(ProofError::GraphError(e));
        },
        Ok(v) => v.len() == 1,
    };
    if !empty_and_single || !single {
        return Err(ProofError::InvalidApplicationOfRule(sel_err_message()));
    }
    let inner = match graph.subgraphs_of(target) {
        Err(_) => {
            proof {
                assert(false);
            }
            0
        },
        Ok(v) => v[0],
    };
    let parent = match graph.parent_of(target) {
        Err(e) => {
            return Err(ProofError::GraphError(e));
        },
        Ok(p) => p,
    };
    proof {
        assert(g.nodes[target].subgraphs.contains(inner));
        assert(g.nodes.contains_key(inner));
    }
    // Copy the inner ring's contents so no borrow of the graph is held
    // while the batch is assembled.
    let ghost names = g.nodes[inner].atoms;
    let ghost subs = g.nodes[inner].subgraphs;
    let mut inner_atoms: Vec<Atom> = Vec::new();
    match graph.atoms_of(inner) {
        Err(_) => {
            proof {
                assert(false);
            }
        },
        Ok(v) => {
            let m = v.len();
            for k in 0..m
                invariant
                    m == v@.len(),
                    atom_names(v@) == names,
                    atom_names(inner_atoms@) =~= names.take(k as int),
            {
                inner_atoms.push(v[k].clone());
                proof {
                    assert(atom_names(inner_atoms@) =~= names.take(k + 1));
                }
            }
        },
    }
    proof {
        assert(atom_names(inner_atoms@) =~= names);
    }
    let mut inner_subs: Vec<CutId> = Vec::new();
    match graph.subgraphs_of(inner) {
        Err(_) => {
            proof {
                assert(false);
            }
        },
        Ok(v) => {
            let m = v.len();
            for k in 0..m
                invariant
                    m == v@.len(),
                    v@ == subs,
                    inner_subs@ =~= subs.take(k as int),
            {
                inner_subs.push(v[k]);
                proof {
                    assert(inner_subs@ =~= subs.take(k + 1));
                }
            }
        },
    }
    proof {
        assert(inner_subs@ =~= subs);
    }
    let mut ans: Vec<Action> = Vec::new();
    let na = inner_atoms.len();
    for i in 0..na
        invariant
            na == inner_atoms@.len(),
            atom_names(inner_atoms@) == names,
            actions_view(ans@) == dce_atom_actions(inner, parent, names.take(i as int)),
    {
        ans.push(
            Action::DeleteAtom {
                target: GraphTarget::Exists(inner),
                atom: inner_atoms[i].clone(),
            },
        );
        ans.push(
            Action::AddAtom { target: GraphTarget::Exists(parent), atom: inner_atoms[i].clone() },
        );
        proof {
            assert(names.take(i + 1).drop_last() =~= names.take(i as int));
            assert(names.take(i + 1).last() == names[i as int]);
            assert(actions_view(ans@) =~= dce_atom_actions(inner, parent, names.take(i + 1)));
        }
    }
    proof {
        assert(names.take(na as int) =~= names);
    }
    let ghost prefix = actions_view(ans@);
    let ns = inner_subs.len();
    for i in 0..ns
        invariant
            ns == inner_subs@.len(),
            inner_subs@ == subs,
            prefix == dce_atom_actions(inner, parent, names),
            actions_view(ans@) == prefix + dce_move_actions(parent, subs.take(i as int)),
    {
        ans.push(
            Action::MoveSubgraph {
                target: GraphTarget::Exists(inner_subs[i]),
                dest: GraphTarget::Exists(parent),
            },
        );
        proof {
            assert(subs.take(i + 1).drop_last() =~= subs.take(i as int));
            assert(subs.take(i + 1).last() == subs[i as int]);
            assert(actions_view(ans@) =~= prefix + dce_move_actions(parent, subs.take(i + 1)));
        }
    }
    ans.push(Action::DeleteSubgraph { target: GraphTarget::Exists(inner) });
    ans.push(Action::DeleteSubgraph { target: GraphTarget::Exists(target) });
    proof {
        assert(subs.take(ns as int) =~= subs);
        assert(g.nodes[target].subgraphs[0] == inner);
        assert(actions_view(ans@) =~= dce_actions(target, inner, parent, names, subs));
    }
    Ok(ans)
}

} // verus!
