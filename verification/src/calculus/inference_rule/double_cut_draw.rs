//! The Double-Cut Draw rule: two nested cuts may be drawn around any
//! selection inside a cut.

use vstd::prelude::*;
use crate::atom::Atom;
use crate::calculus::action::{Action, ActionV, GraphTarget, actions_view};
use crate::calculus::error::{ProofError, ProofResult};
use crate::calculus::inference_rule::InferenceRule;
use crate::calculus::inference_rule::insertion::sel_err_message;
use crate::graph::{Graph, GraphView, CutId};
use crate::graph::subgraph::atom_names;
use crate::graph::error::GraphError;

verus! {

broadcast use crate::graph::Graph::lemma_well_formed_wf, Seq::lemma_push_map_commute;

/// The atom-moving part of the batch: each selected atom leaves `t` and
/// enters the inner cut (slot 1).
pub open spec fn dcd_atom_actions(t: CutId, names: Seq<Seq<char>>) -> Seq<ActionV>
    decreases names.len(),
{
    if names.len() == 0 {
        Seq::empty()
    } else {
        dcd_atom_actions(t, names.drop_last()) + seq![
            ActionV::DeleteAtom { target: GraphTarget::Exists(t), atom: names.last() },
            ActionV::AddAtom { target: GraphTarget::Future(1), atom: names.last() },
        ]
    }
}

/// The child-moving part of the batch: each selected child moves into the
/// inner cut (slot 1).
pub open spec fn dcd_move_actions(subs: Seq<CutId>) -> Seq<ActionV>
    decreases subs.len(),
{
    if subs.len() == 0 {
        Seq::empty()
    } else {
        dcd_move_actions(subs.drop_last()) + seq![
            ActionV::MoveSubgraph {
                target: GraphTarget::Exists(subs.last()),
                dest: GraphTarget::Future(1),
            },
        ]
    }
}

/// The whole batch: open the outer cut (slot 0) in `t`, the inner cut
/// (slot 1) in it, then move the selection into the inner cut.
pub open spec fn dcd_actions(t: CutId, names: Seq<Seq<char>>, subs: Seq<CutId>) -> Seq<ActionV> {
    seq![
        ActionV::AddSubgraph {
            target: GraphTarget::Exists(t),
            new_subgraph: GraphTarget::Future(0),
        },
        ActionV::AddSubgraph {
            target: GraphTarget::Future(0),
            new_subgraph: GraphTarget::Future(1),
        },
    ] + dcd_atom_actions(t, names) + dcd_move_actions(subs)
}

/// Whether the selection is valid: with a non-empty selection the target
/// must exist, every selected atom must lie in it and every selected child
/// must be one of its children.
pub open spec fn dcd_selection_ok(
    g: GraphView,
    t: CutId,
    names: Seq<Seq<char>>,
    subs: Seq<CutId>,
) -> bool {
    &&& names.len() > 0 || subs.len() > 0 ==> g.nodes.contains_key(t)
    &&& forall|i: int| 0 <= i < names.len() ==> g.nodes[t].atoms.contains(#[trigger] names[i])
    &&& forall|i: int| 0 <= i < subs.len() ==> g.nodes[t].subgraphs.contains(#[trigger] subs[i])
}

/// What compiling a Double-Cut Draw must return.
pub open spec fn double_cut_draw_post(
    g: GraphView,
    t: CutId,
    names: Seq<Seq<char>>,
    subs: Seq<CutId>,
    r: ProofResult<Vec<Action>>,
) -> bool {
    if dcd_selection_ok(g, t, names, subs) {
        r matches Ok(v) && actions_view(v@) == dcd_actions(t, names, subs)
    } else if !g.nodes.contains_key(t) {
        r matches Err(ProofError::GraphError(e)) && e == GraphError::InvalidSubgraphTargetError(t)
    } else {
        r matches Err(ProofError::InvalidApplicationOfRule(_))
    }
}

/// Compiles a Double-Cut Draw: checks the selection against the target cut
/// and emits the batch that wraps it in two fresh nested cuts.
pub fn gen_actions_from_double_cut_draw(rule: &InferenceRule, graph: &Graph) -> (r: ProofResult<
    Vec<Action>,
>)
    requires
        graph.well_formed(),
        rule is DoubleCutDraw,
    ensures
        double_cut_draw_post(
            graph@,
            rule->DoubleCutDraw_target,
            atom_names(rule->DoubleCutDraw_target_atoms@),
            rule->DoubleCutDraw_target_subgraphs@,
            r,
        ),
{
    let (target, target_atoms, target_subgraphs): (CutId, &Vec<Atom>, &Vec<CutId>) = match rule {
        InferenceRule::DoubleCutDraw { target, target_atoms, target_subgraphs } => (
            *target,
            target_atoms,
            target_subgraphs,
        ),
        _ => {
            proof {
                assert(false);
            }
            return Err(ProofError::InvalidApplicationOfRule(String::new()));
        },
    };
    let ghost g = graph@;
    let ghost names = atom_names(target_atoms@);
    let ghost subs = target_subgraphs@;
    let na = target_atoms.len();
    for i in 0..na
        invariant
            graph.well_formed(),
            g == graph@,
            na == target_atoms@.len(),
            names == atom_names(target_atoms@),
            rule is DoubleCutDraw,
            target == rule->DoubleCutDraw_target,
            names == atom_names(rule->DoubleCutDraw_target_atoms@),
            subs == rule->DoubleCutDraw_target_subgraphs@,
            i > 0 ==> g.nodes.contains_key(target),
            forall|j: int| 0 <= j < i ==> g.nodes[target].atoms.contains(#[trigger] names[j]),
    {
        let a = &target_atoms[i];
        match graph.atoms_of(target) {
            Err(e) => {
                return Err(ProofError::GraphError(e));
            },
            Ok(v) => {
                let mut present = false;
                let m = v.len();
                for k in 0..m
                    invariant
                        m == v@.len(),
                        atom_names(v@) == g.nodes[target].atoms,
                        a@ == names[i as int],
                        present <==> (exists|kk: int|
                            0 <= kk < k && g.nodes[target].atoms[kk] == names[i as int]),
                {
                    if v[k].eq(a) {
                        proof {
                            assert(g.nodes[target].atoms[k as int] == names[i as int]);
                        }
                        present = true;
                    }
                }
                proof {
                    if !present && g.nodes[target].atoms.contains(names[i as int]) {
                        let kk = choose|kk: int|
                            0 <= kk < g.nodes[target].atoms.len() && g.nodes[target].atoms[kk]
                                == names[i as int];
                        assert(false);
                    }
                }
                if !present {
                    return Err(ProofError::InvalidApplicationOfRule(sel_err_message()));
                }
            },
        }
    }
    let ns = target_subgraphs.len();
    for i in 0..ns
        invariant
            graph.well_formed(),
            g == graph@,
            ns == target_subgraphs@.len(),
            subs == target_subgraphs@,
            rule is DoubleCutDraw,
            target == rule->DoubleCutDraw_target,
            subs == rule->DoubleCutDraw_target_subgraphs@,
            i > 0 || na > 0 ==> g.nodes.contains_key(target),
            na as int == atom_names(target_atoms@).len(),
            names == atom_names(target_atoms@),
            forall|j: int| 0 <= j < names.len() ==> g.nodes[target].atoms.contains(
                #[trigger] names[j],
            ),
            forall|j: int| 0 <= j < i ==> g.nodes[target].subgraphs.contains(#[trigger] subs[j]),
    {
        let sid = target_subgraphs[i];
        match graph.subgraphs_of(target) {
            Err(e) => {
                return Err(ProofError::GraphError(e));
            },
            Ok(v) => {
                let mut present = false;
                let m = v.len();
                for k in 0..m
                    invariant
                        m == v@.len(),
                        v@ == g.nodes[target].subgraphs,
                        sid == subs[i as int],
                        present <==> (exists|kk: int|
                            0 <= kk < k && g.nodes[target].subgraphs[kk] == subs[i as int]),
                {
                    if v[k] == sid {
                        present = true;
                    }
                }
                proof {
                    if !present && g.nodes[target].subgraphs.contains(subs[i as int]) {
                        let kk = choose|kk: int|
                            0 <= kk < g.nodes[target].subgraphs.len()
                                && g.nodes[target].subgraphs[kk] == subs[i as int];
                        assert(false);
                    }
                }
                if !present {
                    return Err(ProofError::InvalidApplicationOfRule(sel_err_message()));
                }
            },
        }
    }
    let mut ans: Vec<Action> = Vec::new();
    ans.push(
        Action::AddSubgraph {
            target: GraphTarget::Exists(target),
            new_subgraph: GraphTarget::Future(0),
        },
    );
    ans.push(
        Action::AddSubgraph {
            target: GraphTarget::Future(0),
            new_subgraph: GraphTarget::Future(1),
        },
    );
    let ghost prefix = actions_view(ans@);
    for i in 0..na
        invariant
            na == target_atoms@.len(),
            names == atom_names(target_atoms@),
            prefix.len() == 2,
            actions_view(ans@) == prefix + dcd_atom_actions(target, names.take(i as int)),
    {
        ans.push(
            Action::DeleteAtom {
                target: GraphTarget::Exists(target),
                atom: target_atoms[i].clone(),
            },
        );
        ans.push(
            Action::AddAtom { target: GraphTarget::Future(1), atom: target_atoms[i].clone() },
        );
        proof {
            assert(names.take(i + 1).drop_last() =~= names.take(i as int));
            assert(names.take(i + 1).last() == names[i as int]);
            assert(actions_view(ans@) =~= prefix + dcd_atom_actions(target, names.take(i + 1)));
        }
    }
    proof {
        assert(names.take(na as int) =~= names);
    }
    let ghost prefix2 = actions_view(ans@);
    for i in 0..ns
        invariant
            ns == target_subgraphs@.len(),
            subs == target_subgraphs@,
            prefix2 == prefix + dcd_atom_actions(target, names),
            prefix.len() == 2,
            actions_view(ans@) == prefix2 + dcd_move_actions(subs.take(i as int)),
    {
        ans.push(
            Action::MoveSubgraph {
                target: GraphTarget::Exists(target_subgraphs[i]),
                dest: GraphTarget::Future(1),
            },
        );
        proof {
            assert(subs.take(i + 1).drop_last() =~= subs.take(i as int));
            assert(subs.take(i + 1).last() == subs[i as int]);
            assert(actions_view(ans@) =~= prefix2 + dcd_move_actions(subs.take(i + 1)));
        }
    }
    proof {
        assert(subs.take(ns as int) =~= subs);
        assert(prefix =~= seq![
            ActionV::AddSubgraph {
                target: GraphTarget::Exists(target),
                new_subgraph: GraphTarget::Future(0),
            },
            ActionV::AddSubgraph {
                target: GraphTarget::Future(0),
                new_subgraph: GraphTarget::Future(1),
            },
        ]);
        assert(actions_view(ans@) =~= dcd_actions(target, names, subs));
    }
    Ok(ans)
}

} // verus!
