//! The Erasure rule: atoms and whole subtrees may be deleted from even
//! (positive) levels.

use vstd::prelude::*;
use crate::atom::Atom;
use crate::calculus::action::{Action, ActionV, GraphTarget, actions_view};
use crate::calculus::error::{ProofError, ProofResult};
use crate::calculus::inference_rule::InferenceRule;
use crate::calculus::inference_rule::insertion::sel_err_message;
use crate::graph::{Graph, GraphView, CutId, wf, lemma_level_bound};
use crate::graph::subgraph::atom_names;
use crate::graph::error::GraphError;

verus! {

broadcast use crate::graph::Graph::lemma_well_formed_wf, Seq::lemma_push_map_commute;

/// The pairs (cut, atom name) of a selection of atoms.
pub open spec fn pairs_view(s: Seq<(CutId, Atom)>) -> Seq<(CutId, Seq<char>)> {
    s.map_values(|p: (CutId, Atom)| (p.0, p.1@))
}

/// How validating a list of selected cuts or atom parents ends: the first
/// absent id, the first id at an odd level, or nothing to object to.
pub ghost enum SelCheck {
    Missing(CutId),
    OddLevel,
    Fine,
}

/// Validates selected cuts front to back: each must exist at an even level.
pub open spec fn check_ids(g: GraphView, ids: Seq<CutId>) -> SelCheck
    decreases ids.len(),
{
    if ids.len() == 0 {
        SelCheck::Fine
    } else if !g.nodes.contains_key(ids[0]) {
        SelCheck::Missing(ids[0])
    } else if g.nodes[ids[0]].level % 2 == 1 {
        SelCheck::OddLevel
    } else {
        check_ids(g, ids.drop_first())
    }
}

/// The deletions of the individually selected atoms, in order.
pub open spec fn era_atom_actions(pairs: Seq<(CutId, Seq<char>)>) -> Seq<ActionV>
    decreases pairs.len(),
{
    if pairs.len() == 0 {
        Seq::empty()
    } else {
        era_atom_actions(pairs.drop_last()) + seq![
            ActionV::DeleteAtom {
                target: GraphTarget::Exists(pairs.last().0),
                atom: pairs.last().1,
            },
        ]
    }
}

/// The deletions of one atom list of one cut.
pub open spec fn era_atom_deletes(id: CutId, names: Seq<Seq<char>>) -> Seq<ActionV>
    decreases names.len(),
{
    if names.len() == 0 {
        Seq::empty()
    } else {
        era_atom_deletes(id, names.drop_last()) + seq![
            ActionV::DeleteAtom { target: GraphTarget::Exists(id), atom: names.last() },
        ]
    }
}

/// The deletion of a whole subtree: the child subtrees first, then the
/// cut's own atoms, then the cut itself — so that every `DeleteSubgraph`
/// meets an already-empty cut.
pub open spec fn era_subtree_actions(g: GraphView, id: CutId) -> Seq<ActionV>
    decreases g.nodes.dom().len() - g.nodes[id].level, 2int,
    when wf(g) && g.nodes.dom().contains(id)
{
    proof {
        lemma_level_bound(g, id);
        assert forall|i: int| 0 <= i < g.nodes[id].subgraphs.len()
            implies g.nodes.dom().contains(#[trigger] g.nodes[id].subgraphs[i])
                && g.nodes[g.nodes[id].subgraphs[i]].level == g.nodes[id].level + 1 by {}
    }
    era_children_actions(g, g.nodes[id].subgraphs, (g.nodes[id].level + 1) as nat)
        + era_atom_deletes(id, g.nodes[id].atoms) + seq![
        ActionV::DeleteSubgraph { target: GraphTarget::Exists(id) },
    ]
}

/// The deletions of a list of sibling subtrees at level `clvl`.
pub open spec fn era_children_actions(g: GraphView, cs: Seq<CutId>, clvl: nat) -> Seq<ActionV>
    decreases g.nodes.dom().len() - clvl, cs.len() + 3,
    when wf(g) && clvl <= g.nodes.dom().len() && (forall|i: int|
        0 <= i < cs.len() ==> g.nodes.dom().contains(#[trigger] cs[i]) && g.nodes[cs[i]].level
            == clvl)
{
    if cs.len() == 0 {
        Seq::empty()
    } else {
        proof {
            assert(g.nodes.dom().contains(cs[cs.len() - 1]));
        }
        era_children_actions(g, cs.drop_last(), clvl) + era_subtree_actions(g, cs.last())
    }
}

/// The deletions of the selected subtrees, whatever their levels.
pub open spec fn era_selected_actions(g: GraphView, subs: Seq<CutId>) -> Seq<ActionV>
    decreases g.nodes.dom().len() + 1, subs.len() + 3,
    when wf(g) && (forall|i: int| 0 <= i < subs.len() ==> g.nodes.dom().contains(
        #[trigger] subs[i],
    ))
{
    if subs.len() == 0 {
        Seq::empty()
    } else {
        proof {
            assert(g.nodes.dom().contains(subs[subs.len() - 1]));
            lemma_level_bound(g, subs.last());
        }
        era_selected_actions(g, subs.drop_last()) + era_subtree_actions(g, subs.last())
    }
}

/// What compiling an Erasure must return: the selected cuts are validated
/// first, then the selected atoms' parent cuts; all must sit at even
/// levels. The batch deletes the listed atoms, then the subtrees.
pub open spec fn erasure_post(
    g: GraphView,
    subs: Seq<CutId>,
    pairs: Seq<(CutId, Seq<char>)>,
    r: ProofResult<Vec<Action>>,
) -> bool {
    match check_ids(g, subs) {
        SelCheck::Missing(x) => r matches Err(ProofError::GraphError(e)) && e
            == GraphError::InvalidSubgraphTargetError(x),
        SelCheck::OddLevel => r matches Err(ProofError::InvalidApplicationOfRule(_)),
        SelCheck::Fine => match check_ids(g, pairs.map_values(|p: (CutId, Seq<char>)| p.0)) {
            SelCheck::Missing(x) => r matches Err(ProofError::GraphError(e)) && e
                == GraphError::InvalidSubgraphTargetError(x),
            SelCheck::OddLevel => r matches Err(ProofError::InvalidApplicationOfRule(_)),
            SelCheck::Fine => r matches Ok(v) && actions_view(v@) == era_atom_actions(pairs)
                + era_selected_actions(g, subs),
        },
    }
}

/// Emits the deletion of the whole subtree of `id`.
pub(crate) fn write_erase_subtree(graph: &Graph, id: CutId, out: &mut Vec<Action>)
    requires
        graph.well_formed(),
        graph@.nodes.contains_key(id),
    ensures
        actions_view(final(out)@) == actions_view(old(out)@) + era_subtree_actions(graph@, id),
    decreases graph@.nodes.dom().len() - graph@.nodes[id].level,
{
    let ghost g = graph@;
    let ghost cs = g.nodes[id].subgraphs;
    let ghost clvl = (g.nodes[id].level + 1) as nat;
    proof {
        lemma_level_bound(g, id);
        assert forall|j: int| 0 <= j < cs.len()
            implies g.nodes.dom().contains(#[trigger] cs[j]) && g.nodes[cs[j]].level
                == clvl by {}
    }
    let mut kids: Vec<CutId> = Vec::new();
    match graph.subgraphs_of(id) {
        Err(_) => {
            proof {
                assert(false);
            }
        },
        Ok(v) => {
            let m = v.len();
            for k in 0..m
                invariant
                    m == v@.len(),
                    v@ == cs,
                    kids@ =~= cs.take(k as int),
            {
                kids.push(v[k]);
                proof {
                    assert(kids@ =~= cs.take(k + 1));
                }
            }
        },
    }
    proof {
        assert(kids@ =~= cs);
    }
    let ghost start = actions_view(out@);
    let cn = kids.len();
    for j in 0..cn
        invariant
            graph.well_formed(),
            g == graph@,
            g.nodes.contains_key(id),
            cn == kids@.len(),
            kids@ == cs,
            cs == g.nodes[id].subgraphs,
            clvl == (g.nodes[id].level + 1) as nat,
            clvl <= g.nodes.dom().len(),
            forall|jj: int| 0 <= jj < cs.len() ==> g.nodes.dom().contains(#[trigger] cs[jj])
                && g.nodes[cs[jj]].level == clvl,
            actions_view(out@) == start + era_children_actions(g, cs.take(j as int), clvl),
    {
        let child = kids[j];
        proof {
            assert(g.nodes.dom().contains(cs[j as int]));
            lemma_level_bound(g, child);
        }
        write_erase_subtree(graph, child, out);
        proof {
            assert(cs.take(j + 1).drop_last() =~= cs.take(j as int));
            assert(cs.take(j + 1).last() == cs[j as int]);
            assert(actions_view(out@) =~= start + era_children_actions(
                g,
                cs.take(j + 1),
                clvl,
            ));
        }
    }
    proof {
        assert(cs.take(cn as int) =~= cs);
    }
    let ghost names = g.nodes[id].atoms;
    let mut own_atoms: Vec<Atom> = Vec::new();
    match graph.atoms_of(id) {
        Err(_) => {
            proof {
                assert(false);
            }
        },
        Ok(v) => {
            let m = v.len();
            for k in 0..m
                invariant
                    m == v@.len(),
                    atom_names(v@) == names,
                    atom_names(own_atoms@) =~= names.take(k as int),
            {
                own_atoms.push(v[k].clone());
                proof {
                    assert(atom_names(own_atoms@) =~= names.take(k + 1));
                }
            }
        },
    }
    proof {
        assert(atom_names(own_atoms@) =~= names);
    }
    let ghost mid = actions_view(out@);
    let na = own_atoms.len();
    for i in 0..na
        invariant
            na == own_atoms@.len(),
            atom_names(own_atoms@) == names,
            actions_view(out@) == mid + era_atom_deletes(id, names.take(i as int)),
    {
        out.push(
            Action::DeleteAtom { target: GraphTarget::Exists(id), atom: own_atoms[i].clone() },
        );
        proof {
            assert(names.take(i + 1).drop_last() =~= names.take(i as int));
            assert(names.take(i + 1).last() == names[i as int]);
            assert(actions_view(out@) =~= mid + era_atom_deletes(id, names.take(i + 1)));
        }
    }
    out.push(Action::DeleteSubgraph { target: GraphTarget::Exists(id) });
    proof {
        assert(names.take(na as int) =~= names);
        assert(actions_view(out@) =~= actions_view(old(out)@) + era_subtree_actions(g, id));
    }
}

/// Compiles an Erasure: validates that every selected cut and every listed
/// atom's parent cut sits at an even level, then emits the deletions.
pub fn gen_actions_from_erasure(rule: &InferenceRule, graph: &Graph) -> (r: ProofResult<
    Vec<Action>,
>)
    requires
        graph.well_formed(),
        rule is Erasure,
    ensures
        erasure_post(
            graph@,
            rule->Erasure_target_subgraphs@,
            pairs_view(rule->Erasure_target_atoms@),
            r,
        ),
{
    let (target_subgraphs, target_atoms): (&Vec<CutId>, &Vec<(CutId, Atom)>) = match rule {
        InferenceRule::Erasure { target_subgraphs, target_atoms } => (
            target_subgraphs,
            target_atoms,
        ),
        _ => {
            proof {
                assert(false);
            }
            return Err(ProofError::InvalidApplicationOfRule(String::new()));
        },
    };
    let ghost g = graph@;
    let ghost subs = target_subgraphs@;
    let ghost pairs = pairs_view(target_atoms@);
    let ns = target_subgraphs.len();
    proof {
        assert(subs.skip(0) =~= subs);
    }
    for i in 0..ns
        invariant
            graph.well_formed(),
            g == graph@,
            ns == target_subgraphs@.len(),
            subs == target_subgraphs@,
            rule is Erasure,
            subs == rule->Erasure_target_subgraphs@,
            pairs == pairs_view(rule->Erasure_target_atoms@),
            check_ids(g, subs) == check_ids(g, subs.skip(i as int)),
            forall|j: int| 0 <= j < i ==> g.nodes.contains_key(#[trigger] subs[j])
                && g.nodes[subs[j]].level % 2 == 0,
    {
        let sid = target_subgraphs[i];
        proof {
            assert(subs.skip(i as int)[0] == subs[i as int]);
            assert(subs.skip(i as int).drop_first() =~= subs.skip(i + 1));
        }
        match graph.level_of(sid) {
            Err(e) => {
                return Err(ProofError::GraphError(e));
            },
            Ok(l) => {
                if l % 2 == 1 {
                    return Err(ProofError::InvalidApplicationOfRule(sel_err_message()));
                }
            },
        }
    }
    proof {
        assert(subs.skip(ns as int) =~= Seq::<CutId>::empty());
        assert(check_ids(g, subs) == SelCheck::Fine);
    }
    let ghost parents = pairs.map_values(|p: (CutId, Seq<char>)| p.0);
    let np = target_atoms.len();
    proof {
        assert(parents.skip(0) =~= parents);
    }
    for i in 0..np
        invariant
            graph.well_formed(),
            g == graph@,
            np == target_atoms@.len(),
            pairs == pairs_view(target_atoms@),
            rule is Erasure,
            subs == rule->Erasure_target_subgraphs@,
            pairs == pairs_view(rule->Erasure_target_atoms@),
            check_ids(g, subs) == SelCheck::Fine,
            parents == pairs.map_values(|p: (CutId, Seq<char>)| p.0),
            check_ids(g, parents) == check_ids(g, parents.skip(i as int)),
    {
        let pid = target_atoms[i].0;
        proof {
            assert(parents.skip(i as int)[0] == parents[i as int]);
            assert(parents[i as int] == pairs[i as int].0);
            assert(pairs[i as int].0 == target_atoms@[i as int].0);
            assert(parents.skip(i as int).drop_first() =~= parents.skip(i + 1));
        }
        match graph.level_of(pid) {
            Err(e) => {
                return Err(ProofError::GraphError(e));
            },
            Ok(l) => {
                if l % 2 == 1 {
                    return Err(ProofError::InvalidApplicationOfRule(sel_err_message()));
                }
            },
        }
    }
    proof {
        assert(parents.skip(np as int) =~= Seq::<CutId>::empty());
        assert(check_ids(g, parents) == SelCheck::Fine);
    }
    let mut ans: Vec<Action> = Vec::new();
    for i in 0..np
        invariant
            np == target_atoms@.len(),
            pairs == pairs_view(target_atoms@),
            actions_view(ans@) == era_atom_actions(pairs.take(i as int)),
    {
        ans.push(
            Action::DeleteAtom {
                target: GraphTarget::Exists(target_atoms[i].0),
                atom: target_atoms[i].1.clone(),
            },
        );
        proof {
            assert(pairs.take(i + 1).drop_last() =~= pairs.take(i as int));
            assert(pairs.take(i + 1).last() == pairs[i as int]);
            assert(pairs[i as int] == (target_atoms@[i as int].0, target_atoms@[i as int].1@));
            assert(actions_view(ans@) =~= era_atom_actions(pairs.take(i + 1)));
        }
    }
    proof {
        assert(pairs.take(np as int) =~= pairs);
    }
    let ghost prefix = actions_view(ans@);
    for i in 0..ns
        invariant
            graph.well_formed(),
            g == graph@,
            ns == target_subgraphs@.len(),
            subs == target_subgraphs@,
            forall|j: int| 0 <= j < subs.len() ==> g.nodes.contains_key(#[trigger] subs[j])
                && g.nodes[subs[j]].level % 2 == 0,
            prefix == era_atom_actions(pairs),
            actions_view(ans@) == prefix + era_selected_actions(g, subs.take(i as int)),
    {
        let sid = target_subgraphs[i];
        proof {
            assert(g.nodes.contains_key(subs[i as int]));
        }
        write_erase_subtree(graph, sid, &mut ans);
        proof {
            assert(subs.take(i + 1).drop_last() =~= subs.take(i as int));
            assert(subs.take(i + 1).last() == subs[i as int]);
            assert forall|jj: int| 0 <= jj < subs.take(i + 1).len()
                implies g.nodes.dom().contains(#[trigger] subs.take(i + 1)[jj]) by {
                assert(subs.take(i + 1)[jj] == subs[jj]);
            }
            assert(actions_view(ans@) =~= prefix + era_selected_actions(g, subs.take(i + 1)));
        }
    }
    proof {
        assert(subs.take(ns as int) =~= subs);
        assert(actions_view(ans@) =~= era_atom_actions(pairs) + era_selected_actions(g, subs));
    }
    Ok(ans)
}

} // verus!
