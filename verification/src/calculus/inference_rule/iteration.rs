//! The Iteration and Deiteration rules: material may be copied from an
//! enclosing cut into an enclosed one, and such a copy may be taken back
//! out again.

use vstd::prelude::*;
use crate::atom::Atom;
use crate::calculus::action::{Action, ActionV, GraphTarget, actions_view};
use crate::calculus::error::{ProofError, ProofResult};
use crate::calculus::inference_rule::InferenceRule;
use crate::calculus::inference_rule::erasure::{era_atom_deletes, era_selected_actions,
    write_erase_subtree};
use crate::calculus::inference_rule::insertion::sel_err_message;
use crate::codec::{serialize_atoms, serialize_children, write_graph, parse_spec,
    parse_graph_string_into_actions};
use crate::graph::{Graph, GraphView, CutId, is_ancestor_of};
use crate::graph::subgraph::atom_names;
use crate::graph::error::GraphError;

verus! {

broadcast use crate::graph::Graph::lemma_well_formed_wf, Seq::lemma_push_map_commute;

/// The textual form of a selection inside a cut at level `clvl - 1`: the
/// chosen atoms and the serializations of the chosen subtrees, joined by
/// commas, inside one pair of brackets.
pub open spec fn selection_string(
    g: GraphView,
    names: Seq<Seq<char>>,
    subs: Seq<CutId>,
    clvl: nat,
) -> Seq<char> {
    let a = serialize_atoms(names);
    let c = serialize_children(g, subs, clvl);
    seq!['['] + (if names.len() == 0 {
        c
    } else if subs.len() == 0 {
        a
    } else {
        a + seq![','] + c
    }) + seq![']']
}

/// What compiling an Iteration or Deiteration must return. The selection
/// must lie in `parent`; forward, `parent` must strictly enclose `target`,
/// backward, `target` must strictly enclose `parent`. Forward, the batch is
/// the parse of the selection's textual form against `target`, drawing a
/// copy there; backward, it deletes the selected atoms from `parent` and
/// the selected subtrees whole, child cuts first — so a matching pair of
/// applications restores the graph up to the choice of fresh ids.
pub open spec fn iteration_post(
    g: GraphView,
    backwards: bool,
    parent: CutId,
    names: Seq<Seq<char>>,
    subs: Seq<CutId>,
    target: CutId,
    r: ProofResult<Vec<Action>>,
) -> bool {
    if (names.len() > 0 || subs.len() > 0) && !g.nodes.contains_key(parent) {
        r matches Err(ProofError::GraphError(e)) && e == GraphError::InvalidSubgraphTargetError(
            parent,
        )
    } else if !backwards && !g.nodes.contains_key(parent) {
        r matches Err(ProofError::GraphError(e)) && e == GraphError::InvalidSubgraphTargetError(
            parent,
        )
    } else if !backwards && !g.nodes.contains_key(target) {
        r matches Err(ProofError::GraphError(e)) && e == GraphError::InvalidSubgraphTargetError(
            target,
        )
    } else if backwards && !g.nodes.contains_key(target) {
        r matches Err(ProofError::GraphError(e)) && e == GraphError::InvalidSubgraphTargetError(
            target,
        )
    } else if backwards && !g.nodes.contains_key(parent) {
        r matches Err(ProofError::GraphError(e)) && e == GraphError::InvalidSubgraphTargetError(
            parent,
        )
    } else if !(forall|i: int| 0 <= i < names.len() ==> g.nodes[parent].atoms.contains(
        #[trigger] names[i],
    )) || !(forall|i: int| 0 <= i < subs.len() ==> g.nodes[parent].subgraphs.contains(
        #[trigger] subs[i],
    )) || (if backwards {
        !is_ancestor_of(g, target, parent)
    } else {
        !is_ancestor_of(g, parent, target)
    }) {
        r matches Err(ProofError::InvalidApplicationOfRule(_))
    } else if backwards {
        r matches Ok(v) && actions_view(v@) == era_atom_deletes(parent, names)
            + era_selected_actions(g, subs)
    } else {
        let text = selection_string(g, names, subs, (g.nodes[parent].level + 1) as nat);
        match parse_spec(text, target) {
            Ok(acts) => r matches Ok(v) && actions_view(v@) == acts,
            Err(pe) => r matches Err(ProofError::GraphError(e)) && e == pe,
        }
    }
}

/// Compiles an Iteration or Deiteration: validates the selection and the
/// direction of enclosure, serializes the selection, and parses it back as
/// a batch against `target`.
pub fn gen_actions_from_iteration(rule: &InferenceRule, graph: &Graph) -> (r: ProofResult<
    Vec<Action>,
>)
    requires
        graph.well_formed(),
        rule is Iteration,
    ensures
        iteration_post(
            graph@,
            rule->Iteration_backwards,
            rule->Iteration_parent,
            atom_names(rule->Iteration_parent_atoms@),
            rule->Iteration_parent_subgraphs@,
            rule->Iteration_target,
            r,
        ),
{
    let (backwards, parent, parent_atoms, parent_subgraphs, target): (
        bool,
        CutId,
        &Vec<Atom>,
        &Vec<CutId>,
        CutId,
    ) = match rule {
        InferenceRule::Iteration { backwards, parent, parent_atoms, parent_subgraphs, target } => (
            *backwards,
            *parent,
            parent_atoms,
            parent_subgraphs,
            *target,
        ),
        _ => {
            proof {
                assert(false);
            }
            return Err(ProofError::InvalidApplicationOfRule(String::new()));
        },
    };
    let ghost g = graph@;
    let ghost names = atom_names(parent_atoms@);
    let ghost subs = parent_subgraphs@;
    let mut all_atoms_in = true;
    let na = parent_atoms.len();
    for i in 0..na
        invariant
            graph.well_formed(),
            g == graph@,
            na == parent_atoms@.len(),
            names == atom_names(parent_atoms@),
            rule is Iteration,
            backwards == rule->Iteration_backwards,
            parent == rule->Iteration_parent,
            target == rule->Iteration_target,
            names == atom_names(rule->Iteration_parent_atoms@),
            subs == rule->Iteration_parent_subgraphs@,
            i > 0 ==> g.nodes.contains_key(parent),
            all_atoms_in <==> (forall|j: int| 0 <= j < i ==> g.nodes[parent].atoms.contains(
                #[trigger] names[j],
            )),
    {
        let a = &parent_atoms[i];
        match graph.atoms_of(parent) {
            Err(e) => {
                return Err(ProofError::GraphError(e));
            },
            Ok(v) => {
                let mut present = false;
                let m = v.len();
                for k in 0..m
                    invariant
                        m == v@.len(),
                        atom_names(v@) == g.nodes[parent].atoms,
                        a@ == names[i as int],
                        present <==> (exists|kk: int|
                            0 <= kk < k && g.nodes[parent].atoms[kk] == names[i as int]),
                {
                    if v[k].eq(a) {
                        proof {
                            assert(g.nodes[parent].atoms[k as int] == names[i as int]);
                        }
                        present = true;
                    }
                }
                proof {
                    if present {
                        assert(g.nodes[parent].atoms.contains(names[i as int]));
                    } else {
                        if g.nodes[parent].atoms.contains(names[i as int]) {
                            let kk = choose|kk: int|
                                0 <= kk < g.nodes[parent].atoms.len() && g.nodes[parent].atoms[kk]
                                    == names[i as int];
                            assert(false);
                        }
                    }
                }
                if !present {
                    all_atoms_in = false;
                }
            },
        }
    }
    let mut all_subs_in = true;
    let ns = parent_subgraphs.len();
    for i in 0..ns
        invariant
            graph.well_formed(),
            g == graph@,
            ns == parent_subgraphs@.len(),
            subs == parent_subgraphs@,
            rule is Iteration,
            backwards == rule->Iteration_backwards,
            parent == rule->Iteration_parent,
            target == rule->Iteration_target,
            names == atom_names(rule->Iteration_parent_atoms@),
            subs == rule->Iteration_parent_subgraphs@,
            na as int == names.len(),
            i > 0 || na > 0 ==> g.nodes.contains_key(parent),
            all_subs_in <==> (forall|j: int| 0 <= j < i ==> g.nodes[parent].subgraphs.contains(
                #[trigger] subs[j],
            )),
    {
        let sid = parent_subgraphs[i];
        match graph.subgraphs_of(parent) {
            Err(e) => {
                return Err(ProofError::GraphError(e));
            },
            Ok(v) => {
                let mut present = false;
                let m = v.len();
                for k in 0..m
                    invariant
                        m == v@.len(),
                        v@ == g.nodes[parent].subgraphs,
                        sid == subs[i as int],
                        present <==> (exists|kk: int|
                            0 <= kk < k && g.nodes[parent].subgraphs[kk] == subs[i as int]),
                {
                    if v[k] == sid {
                        present = true;
                    }
                }
                proof {
                    if present {
                        assert(g.nodes[parent].subgraphs.contains(subs[i as int]));
                    } else {
                        if g.nodes[parent].subgraphs.contains(subs[i as int]) {
                            let kk = choose|kk: int|
                                0 <= kk < g.nodes[parent].subgraphs.len()
                                    && g.nodes[parent].subgraphs[kk] == subs[i as int];
                            assert(false);
                        }
                    }
                }
                if !present {
                    all_subs_in = false;
                }
            },
        }
    }
    let correct_ancestry: bool = if !backwards {
        match graph.is_ancestor(parent, target) {
            Err(e) => {
                return Err(ProofError::GraphError(e));
            },
            Ok(b) => b,
        }
    } else {
        match graph.is_ancestor(target, parent) {
            Err(e) => {
                return Err(ProofError::GraphError(e));
            },
            Ok(b) => b,
        }
    };
    if !all_atoms_in || !all_subs_in || !correct_ancestry {
        return Err(ProofError::InvalidApplicationOfRule(sel_err_message()));
    }
    if backwards {
        // Deiteration takes the copies out again: delete the selected
        // atoms from `parent` and the selected subtrees whole.
        proof {
            assert forall|j: int| 0 <= j < subs.len()
                implies g.nodes.dom().contains(#[trigger] subs[j]) by {
                assert(g.nodes[parent].subgraphs.contains(subs[j]));
                crate::graph::lemma_child_parent(g, parent, subs[j]);
            }
        }
        let mut ans: Vec<Action> = Vec::new();
        for i in 0..na
            invariant
                na == parent_atoms@.len(),
                names == atom_names(parent_atoms@),
                actions_view(ans@) == era_atom_deletes(parent, names.take(i as int)),
        {
            ans.push(
                Action::DeleteAtom {
                    target: GraphTarget::Exists(parent),
                    atom: parent_atoms[i].clone(),
                },
            );
            proof {
                assert(names.take(i + 1).drop_last() =~= names.take(i as int));
                assert(names.take(i + 1).last() == names[i as int]);
                assert(actions_view(ans@) =~= era_atom_deletes(parent, names.take(i + 1)));
            }
        }
        proof {
            assert(names.take(na as int) =~= names);
        }
        let ghost prefix = actions_view(ans@);
        for i in 0..ns
            invariant
                graph.well_formed(),
                g == graph@,
                ns == parent_subgraphs@.len(),
                subs == parent_subgraphs@,
                forall|j: int| 0 <= j < subs.len() ==> g.nodes.dom().contains(
                    #[trigger] subs[j],
                ),
                prefix == era_atom_deletes(parent, names),
                actions_view(ans@) == prefix + era_selected_actions(g, subs.take(i as int)),
        {
            let sid = parent_subgraphs[i];
            proof {
                assert(g.nodes.dom().contains(subs[i as int]));
            }
            write_erase_subtree(graph, sid, &mut ans);
            proof {
                assert(subs.take(i + 1).drop_last() =~= subs.take(i as int));
                assert(subs.take(i + 1).last() == subs[i as int]);
                assert forall|jj: int| 0 <= jj < subs.take(i + 1).len()
                    implies g.nodes.dom().contains(#[trigger] subs.take(i + 1)[jj]) by {
                    assert(subs.take(i + 1)[jj] == subs[jj]);
                }
                assert(actions_view(ans@) =~= prefix + era_selected_actions(
                    g,
                    subs.take(i + 1),
                ));
            }
        }
        proof {
            assert(subs.take(ns as int) =~= subs);
            assert(actions_view(ans@) =~= era_atom_deletes(parent, names)
                + era_selected_actions(g, subs));
        }
        return Ok(ans);
    }
    // Build the textual form of the selection, then parse it back against
    // the target cut, exactly as loading a graph from text would.
    let ghost clvl = (g.nodes[parent].level + 1) as nat;
    proof {
        crate::graph::lemma_level_bound(g, parent);
        assert forall|j: int| 0 <= j < subs.len()
            implies g.nodes.dom().contains(#[trigger] subs[j]) && g.nodes[subs[j]].level
                == clvl by {
            assert(g.nodes[parent].subgraphs.contains(subs[j]));
            crate::graph::lemma_child_parent(g, parent, subs[j]);
        }
    }
    let mut text = String::new();
    text.push('[');
    let ghost start = text@;
    for i in 0..na
        invariant
            na == parent_atoms@.len(),
            names == atom_names(parent_atoms@),
            text@ == start + serialize_atoms(names.take(i as int)),
    {
        if i > 0 {
            text.push(',');
        }
        let a = &parent_atoms[i];
        let mut k: usize = 0;
        let name = a.name();
        let m = name.as_str().unicode_len();
        let ghost mid = text@;
        while k < m
            invariant
                m == name@.len(),
                name@ == names[i as int],
                k <= m,
                text@ == mid + name@.take(k as int),
            decreases m - k,
        {
            let c = name.as_str().get_char(k);
            text.push(c);
            proof {
                assert(text@ =~= mid + name@.take(k + 1));
            }
            k = k + 1;
        }
        proof {
            assert(name@.take(m as int) =~= name@);
            assert(names.take(i + 1).drop_last() =~= names.take(i as int));
            assert(names.take(i + 1).last() == names[i as int]);
            if i == 0 {
                assert(text@ =~= start + serialize_atoms(names.take(1)));
            } else {
                assert(text@ =~= start + serialize_atoms(names.take(i + 1)));
            }
        }
    }
    proof {
        assert(names.take(na as int) =~= names);
    }
    let ghost mid2 = text@;
    for j in 0..ns
        invariant
            graph.well_formed(),
            g == graph@,
            ns == parent_subgraphs@.len(),
            subs == parent_subgraphs@,
            na as int == names.len(),
            clvl <= g.nodes.dom().len(),
            forall|jj: int| 0 <= jj < subs.len() ==> g.nodes.dom().contains(#[trigger] subs[jj])
                && g.nodes[subs[jj]].level == clvl,
            text@ == mid2 + (if j == 0 && names.len() > 0 && subs.len() > 0 {
                Seq::<char>::empty()
            } else if names.len() > 0 && subs.len() > 0 {
                seq![','] + serialize_children(g, subs.take(j as int), clvl)
            } else {
                serialize_children(g, subs.take(j as int), clvl)
            }),
    {
        if j > 0 || na > 0 {
            text.push(',');
        }
        let sid = parent_subgraphs[j];
        proof {
            assert(g.nodes.dom().contains(subs[j as int]));
        }
        write_graph(graph, sid, &mut text);
        proof {
            assert(subs.take(j + 1).drop_last() =~= subs.take(j as int));
            assert(subs.take(j + 1).last() == subs[j as int]);
            if j == 0 {
                if names.len() > 0 {
                    assert(text@ =~= mid2 + (seq![','] + serialize_children(
                        g,
                        subs.take(1),
                        clvl,
                    )));
                } else {
                    assert(text@ =~= mid2 + serialize_children(g, subs.take(1), clvl));
                }
            } else {
                if names.len() > 0 {
                    assert(text@ =~= mid2 + (seq![','] + serialize_children(
                        g,
                        subs.take(j + 1),
                        clvl,
                    )));
                } else {
                    assert(text@ =~= mid2 + serialize_children(g, subs.take(j + 1), clvl));
                }
            }
        }
    }
    text.push(']');
    proof {
        assert(subs.take(ns as int) =~= subs);
        assert(text@ =~= selection_string(g, names, subs, clvl));
    }
    match parse_graph_string_into_actions(graph, text.as_str(), target) {
        Ok(v) => Ok(v),
        Err(e) => Err(ProofError::GraphError(e)),
    }
}

} // verus!
