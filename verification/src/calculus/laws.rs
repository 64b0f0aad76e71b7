//! Laws of the action algebra: applying a batch and then the inverse batch
//! recorded for it restores the graph, and drawing a double cut around
//! selected atoms and erasing it again is the identity — both up to the
//! internal order of atom and child lists.

use vstd::prelude::*;
use crate::calculus::action::{ActionV, GraphTarget, apply_action_spec, apply_batch_spec,
    resolve_spec};
use crate::graph::{GraphView, CutId, wf, cuts_with, in_subtree, is_ancestor_of, move_spec,
    insert_atom_spec, remove_atom_spec, insert_node_spec, remove_leaf_spec,
    lemma_insert_atom_spec_wf, lemma_remove_atom_spec_wf, lemma_insert_node_spec_wf,
    lemma_remove_leaf_spec_wf, lemma_move_spec_wf, lemma_ancestor_level, lemma_child_parent,
    lemma_no_dup_remove_value};
use crate::graph::subgraph::SubgraphView;

verus! {

broadcast use vstd::seq_lib::lemma_seq_contains_after_push;

/// Structural equality of two graphs over the same ids: the same tree, the
/// same levels, the same atom and child sets per cut, the same usage — only
/// the internal order of atom and child lists may differ.
pub open spec fn equiv(g1: GraphView, g2: GraphView) -> bool {
    &&& g1.root == g2.root
    &&& g1.parent =~= g2.parent
    &&& g1.usage =~= g2.usage
    &&& g1.nodes.dom() =~= g2.nodes.dom()
    &&& forall|id: CutId| #[trigger] g1.nodes.contains_key(id) ==> {
        &&& g1.nodes[id].level == g2.nodes[id].level
        &&& g1.nodes[id].atoms.to_set() =~= g2.nodes[id].atoms.to_set()
        &&& g1.nodes[id].subgraphs.to_set() =~= g2.nodes[id].subgraphs.to_set()
    }
}

/// Whether one action actually changes the graph when it succeeds: adding
/// an atom that is already in place, or deleting one that is absent, is a
/// no-op whose recorded inverse would then overshoot. All other actions are
/// effective whenever they succeed.
pub open spec fn action_effective(g: GraphView, b: Map<usize, CutId>, a: ActionV) -> bool {
    match a {
        ActionV::AddAtom { target, atom } => match resolve_spec(b, target) {
            Some(t) => g.nodes.contains_key(t) && !g.nodes[t].atoms.contains(atom),
            None => false,
        },
        ActionV::DeleteAtom { target, atom } => match resolve_spec(b, target) {
            Some(t) => g.nodes.contains_key(t) && g.nodes[t].atoms.contains(atom),
            None => false,
        },
        ActionV::AddSubgraph { target, new_subgraph: GraphTarget::Future(k) } =>
            crate::graph::is_fresh_id(g, crate::graph::fresh_id(g)),
        _ => true,
    }
}

/// Whether every action of a batch is effective at its point of
/// application.
pub open spec fn effective_batch(g: GraphView, b: Map<usize, CutId>, acts: Seq<ActionV>) -> bool
    decreases acts.len(),
{
    if acts.len() == 0 {
        true
    } else {
        action_effective(g, b, acts[0]) && match apply_action_spec(g, b, acts[0]) {
            Ok((g1, b1, inv)) => effective_batch(g1, b1, acts.drop_first()),
            Err(_) => true,
        }
    }
}

/// Whether an action refers to cuts by id only, never through a `Future`
/// slot. Recorded inverses are of this shape, so the bindings carried while
/// they run make no difference.
pub open spec fn exists_only(a: ActionV) -> bool {
    match a {
        ActionV::AddAtom { target, atom } => target is Exists,
        ActionV::DeleteAtom { target, atom } => target is Exists,
        ActionV::AddSubgraph { target, new_subgraph } => target is Exists
            && new_subgraph is Exists,
        ActionV::DeleteSubgraph { target } => target is Exists,
        ActionV::MoveSubgraph { target, dest } => target is Exists && dest is Exists,
    }
}

/// A slot-free action behaves the same under any bindings: same outcome,
/// same new graph, same recorded inverse; only the untouched bindings
/// differ.
proof fn lemma_step_bindings_irrelevant(
    g: GraphView,
    b1: Map<usize, CutId>,
    b2: Map<usize, CutId>,
    a: ActionV,
)
    requires
        exists_only(a),
    ensures
        match (apply_action_spec(g, b1, a), apply_action_spec(g, b2, a)) {
            (Ok((x1, y1, i1)), Ok((x2, y2, i2))) => x1 == x2 && i1 == i2 && y1 == b1 && y2 == b2,
            (Err(e1), Err(e2)) => e1 == e2,
            _ => false,
        },
{
}

/// Whether the one side condition for allocation holds: an action that
/// binds a fresh id needs an unused id to exist, which every graph a
/// machine can hold has.
pub open spec fn alloc_ok(g: GraphView, a: ActionV) -> bool {
    match a {
        ActionV::AddSubgraph { target, new_subgraph: GraphTarget::Future(k) } =>
            crate::graph::is_fresh_id(g, crate::graph::fresh_id(g)),
        _ => true,
    }
}

/// One successful step keeps the graph well-formed.
pub proof fn lemma_action_step_wf(g: GraphView, b: Map<usize, CutId>, a: ActionV)
    requires
        wf(g),
        apply_action_spec(g, b, a) is Ok,
        alloc_ok(g, a),
    ensures
        wf(apply_action_spec(g, b, a)->Ok_0.0),
{
    match a {
        ActionV::AddAtom { target, atom } => {
            lemma_insert_atom_spec_wf(g, resolve_spec(b, target)->0, atom);
        },
        ActionV::DeleteAtom { target, atom } => {
            lemma_remove_atom_spec_wf(g, resolve_spec(b, target)->0, atom);
        },
        ActionV::AddSubgraph { target, new_subgraph } => {
            let t = resolve_spec(b, target)->0;
            match new_subgraph {
                GraphTarget::Exists(nid) => {
                    lemma_insert_node_spec_wf(g, t, nid);
                },
                GraphTarget::Future(k) => {
                    assert(crate::graph::is_fresh_id(g, crate::graph::fresh_id(g)));
                    lemma_insert_node_spec_wf(g, t, crate::graph::fresh_id(g));
                },
            }
        },
        ActionV::DeleteSubgraph { target } => {
            let t = resolve_spec(b, target)->0;
            lemma_remove_leaf_spec_wf(g, t);
        },
        ActionV::MoveSubgraph { target, dest } => {
            let t = resolve_spec(b, target)->0;
            let d = resolve_spec(b, dest)->0;
            lemma_move_spec_wf(g, t, d);
        },
    }
}

/// A batch keeps the graph well-formed, also at the point of a failure.
pub proof fn lemma_batch_wf(g: GraphView, b: Map<usize, CutId>, acts: Seq<ActionV>)
    requires
        wf(g),
        effective_batch(g, b, acts),
    ensures
        match apply_batch_spec(g, b, acts) {
            Ok((g2, b2, invs)) => wf(g2),
            Err((ge, e)) => wf(ge),
        },
    decreases acts.len(),
{
    if acts.len() > 0 {
        match apply_action_spec(g, b, acts[0]) {
            Err(e) => {},
            Ok((g1, b1, inv)) => {
                lemma_action_step_wf(g, b, acts[0]);
                lemma_batch_wf(g1, b1, acts.drop_first());
            },
        }
    }
}

/// Structural equality is symmetric.
proof fn lemma_equiv_sym(g1: GraphView, g2: GraphView)
    requires
        equiv(g1, g2),
    ensures
        equiv(g2, g1),
{
    assert forall|id: CutId| #[trigger] g2.nodes.contains_key(id) implies {
        &&& g2.nodes[id].level == g1.nodes[id].level
        &&& g2.nodes[id].atoms.to_set() =~= g1.nodes[id].atoms.to_set()
        &&& g2.nodes[id].subgraphs.to_set() =~= g1.nodes[id].subgraphs.to_set()
    } by {
        assert(g1.nodes.contains_key(id));
    }
}

/// Structural equality is transitive.
proof fn lemma_equiv_trans(g1: GraphView, g2: GraphView, g3: GraphView)
    requires
        equiv(g1, g2),
        equiv(g2, g3),
    ensures
        equiv(g1, g3),
{
    assert forall|id: CutId| #[trigger] g1.nodes.contains_key(id) implies {
        &&& g1.nodes[id].level == g3.nodes[id].level
        &&& g1.nodes[id].atoms.to_set() =~= g3.nodes[id].atoms.to_set()
        &&& g1.nodes[id].subgraphs.to_set() =~= g3.nodes[id].subgraphs.to_set()
    } by {
        assert(g2.nodes.contains_key(id));
    }
}

/// Folding a batch split in two folds the first part, then the second from
/// where it ended, prepending the second part's inverses.
proof fn lemma_batch_append(g: GraphView, b: Map<usize, CutId>, xs: Seq<ActionV>, ys: Seq<ActionV>)
    ensures
        apply_batch_spec(g, b, xs + ys) == (match apply_batch_spec(g, b, xs) {
            Ok((g1, b1, invs1)) => match apply_batch_spec(g1, b1, ys) {
                Ok((g2, b2, invs2)) => Ok((g2, b2, invs2 + invs1)),
                Err(p) => Err(p),
            },
            Err(p) => Err(p),
        }),
    decreases xs.len(),
{
    if xs.len() == 0 {
        assert(xs + ys =~= ys);
        match apply_batch_spec(g, b, ys) {
            Ok((g2, b2, invs2)) => {
                assert(invs2 + Seq::<ActionV>::empty() =~= invs2);
            },
            Err(p) => {},
        }
    } else {
        assert((xs + ys)[0] == xs[0]);
        assert((xs + ys).drop_first() =~= xs.drop_first() + ys);
        match apply_action_spec(g, b, xs[0]) {
            Err(e) => {},
            Ok((g1, b1, inv0)) => {
                lemma_batch_append(g1, b1, xs.drop_first(), ys);
                match apply_batch_spec(g1, b1, xs.drop_first()) {
                    Err(p) => {},
                    Ok((gx, bx, invsx)) => {
                        match apply_batch_spec(gx, bx, ys) {
                            Err(p) => {},
                            Ok((g2, b2, invs2)) => {
                                assert((invs2 + invsx).push(inv0) =~= invs2 + invsx.push(
                                    inv0,
                                ));
                            },
                        }
                    },
                }
            },
        }
    }
}

/// The sequence left after removing the values of `q`, one occurrence each,
/// in order.
pub open spec fn remove_values<A>(s: Seq<A>, q: Seq<A>) -> Seq<A>
    decreases q.len(),
{
    if q.len() == 0 {
        s
    } else {
        remove_values(s, q.drop_last()).remove_value(q.last())
    }
}

/// With `q` a duplicate-free selection from a duplicate-free `s`, removing
/// its values drops exactly them.
proof fn lemma_remove_values_props<A>(s: Seq<A>, q: Seq<A>)
    requires
        s.no_duplicates(),
        q.no_duplicates(),
        forall|i: int| 0 <= i < q.len() ==> s.contains(#[trigger] q[i]),
    ensures
        remove_values(s, q).no_duplicates(),
        remove_values(s, q).len() == s.len() - q.len(),
        forall|x: A| #[trigger] remove_values(s, q).contains(x) <==> (s.contains(x)
            && !q.contains(x)),
    decreases q.len(),
{
    if q.len() > 0 {
        let d = q.drop_last();
        let v = q.last();
        assert forall|i: int| 0 <= i < d.len() implies s.contains(#[trigger] d[i]) by {
            assert(d[i] == q[i]);
        }
        lemma_remove_values_props(s, d);
        let r = remove_values(s, d);
        assert(r.contains(v)) by {
            assert(s.contains(q[q.len() - 1]));
            assert(!d.contains(v)) by {
                if d.contains(v) {
                    let j = choose|j: int| 0 <= j < d.len() && d[j] == v;
                    assert(q[j] == q[q.len() - 1]);
                }
            }
        }
        lemma_no_dup_remove_value(r, v);
        assert forall|x: A| #[trigger] remove_values(s, q).contains(x)
            <==> (s.contains(x) && !q.contains(x)) by {
            assert(remove_values(s, q) == r.remove_value(v));
            if q.contains(x) {
                let j = choose|j: int| 0 <= j < q.len() && q[j] == x;
                if j < q.len() - 1 {
                    assert(d[j] == x);
                    assert(d.contains(x));
                }
            }
            if !q.contains(x) {
                assert(!d.contains(x)) by {
                    if d.contains(x) {
                        let j = choose|j: int| 0 <= j < d.len() && d[j] == x;
                        assert(q[j] == x);
                    }
                }
                assert(x != v) by {
                    assert(q[q.len() - 1] == v);
                }
            }
        }
    }
}

/// The pair batch that moves each of `names`, in order, out of the cut
/// `src` resolves to and into the cut `dst` resolves to. Both double-cut
/// rules emit their atom-moving segment in this shape.
pub open spec fn transfer_actions(
    src: GraphTarget,
    dst: GraphTarget,
    names: Seq<Seq<char>>,
) -> Seq<ActionV>
    decreases names.len(),
{
    if names.len() == 0 {
        Seq::empty()
    } else {
        transfer_actions(src, dst, names.drop_last()) + seq![
            ActionV::DeleteAtom { target: src, atom: names.last() },
            ActionV::AddAtom { target: dst, atom: names.last() },
        ]
    }
}

/// Moving distinct atoms of one cut into another cut that lacks them takes
/// them across one by one: the source loses exactly the moved names, the
/// destination gains them at the end, and nothing else changes — the usage
/// counts included, since every drop is matched by an add.
proof fn lemma_transfer_fold(
    g: GraphView,
    b: Map<usize, CutId>,
    src_t: GraphTarget,
    dst_t: GraphTarget,
    src: CutId,
    dst: CutId,
    names: Seq<Seq<char>>,
)
    requires
        wf(g),
        resolve_spec(b, src_t) == Some(src),
        resolve_spec(b, dst_t) == Some(dst),
        src != dst,
        g.nodes.contains_key(src),
        g.nodes.contains_key(dst),
        names.no_duplicates(),
        forall|i: int| 0 <= i < names.len() ==> g.nodes[src].atoms.contains(#[trigger] names[i]),
        forall|i: int| 0 <= i < names.len() ==> !g.nodes[dst].atoms.contains(
            #[trigger] names[i],
        ),
    ensures
        match apply_batch_spec(g, b, transfer_actions(src_t, dst_t, names)) {
            Ok((g1, b1, invs)) => {
                &&& b1 == b
                &&& wf(g1)
                &&& g1.root == g.root
                &&& g1.parent == g.parent
                &&& g1.usage =~= g.usage
                &&& g1.nodes =~~= g.nodes.insert(
                    src,
                    SubgraphView {
                        atoms: remove_values(g.nodes[src].atoms, names),
                        ..g.nodes[src]
                    },
                ).insert(
                    dst,
                    SubgraphView { atoms: g.nodes[dst].atoms + names, ..g.nodes[dst] },
                )
            },
            Err(_) => false,
        },
    decreases names.len(),
{
    if names.len() == 0 {
        assert(apply_batch_spec(g, b, transfer_actions(src_t, dst_t, names)) == Ok::<
            (GraphView, Map<usize, CutId>, Seq<ActionV>),
            (GraphView, crate::calculus::action::error::ActionError),
        >((g, b, Seq::<ActionV>::empty())));
        assert(g.nodes[dst].atoms + names =~= g.nodes[dst].atoms);
        assert(g.nodes =~~= g.nodes.insert(
            src,
            SubgraphView { atoms: remove_values(g.nodes[src].atoms, names), ..g.nodes[src] },
        ).insert(dst, SubgraphView { atoms: g.nodes[dst].atoms + names, ..g.nodes[dst] }));
    } else {
        let d = names.drop_last();
        let v = names.last();
        assert forall|i: int| 0 <= i < d.len() implies g.nodes[src].atoms.contains(
            #[trigger] d[i],
        ) && !g.nodes[dst].atoms.contains(d[i]) by {
            assert(d[i] == names[i]);
        }
        lemma_transfer_fold(g, b, src_t, dst_t, src, dst, d);
        let pair = seq![
            ActionV::DeleteAtom { target: src_t, atom: v },
            ActionV::AddAtom { target: dst_t, atom: v },
        ];
        assert(transfer_actions(src_t, dst_t, names) == transfer_actions(src_t, dst_t, d)
            + pair);
        lemma_batch_append(g, b, transfer_actions(src_t, dst_t, d), pair);
        match apply_batch_spec(g, b, transfer_actions(src_t, dst_t, d)) {
            Err(_) => {
                assert(false);
            },
            Ok((gp, bp, invsp)) => {
                assert(g.nodes[src].atoms.no_duplicates());
                lemma_remove_values_props(g.nodes[src].atoms, d);
                // The pending name is still in the source and not yet in
                // the destination.
                assert(gp.nodes.contains_key(src) && gp.nodes.contains_key(dst));
                assert(gp.nodes[src].atoms == remove_values(g.nodes[src].atoms, d));
                assert(gp.nodes[dst].atoms == g.nodes[dst].atoms + d);
                assert(gp.nodes[src].atoms.contains(v)) by {
                    assert(g.nodes[src].atoms.contains(names[names.len() - 1]));
                    assert(!d.contains(v)) by {
                        if d.contains(v) {
                            let j = choose|j: int| 0 <= j < d.len() && d[j] == v;
                            assert(names[j] == names[names.len() - 1]);
                        }
                    }
                }
                assert(!gp.nodes[dst].atoms.contains(v)) by {
                    if gp.nodes[dst].atoms.contains(v) {
                        let j = choose|j: int|
                            0 <= j < gp.nodes[dst].atoms.len() && gp.nodes[dst].atoms[j] == v;
                        if j < g.nodes[dst].atoms.len() {
                            assert(g.nodes[dst].atoms[j] == v);
                            assert(g.nodes[dst].atoms.contains(names[names.len() - 1]));
                        } else {
                            assert(d[j - g.nodes[dst].atoms.len()] == v);
                            let k = j - g.nodes[dst].atoms.len();
                            assert(names[k] == names[names.len() - 1]);
                        }
                    }
                }
                assert(crate::atom::valid_atom_name(v)) by {
                    let j = choose|j: int|
                        0 <= j < g.nodes[src].atoms.len() && g.nodes[src].atoms[j] == v;
                    assert(crate::atom::valid_atom_name(g.nodes[src].atoms[j]));
                }
                // Unfold the two steps of the pair.
                assert(pair[0] == ActionV::DeleteAtom { target: src_t, atom: v });
                assert(pair.drop_first() =~= seq![
                    ActionV::AddAtom { target: dst_t, atom: v },
                ]);
                let sd = apply_action_spec(gp, bp, pair[0]);
                assert(bp == b);
                assert(sd is Ok) by {
                    assert(resolve_spec(bp, src_t) == Some(src));
                }
                let (gd, bd, invd) = sd->Ok_0;
                assert(gd == remove_atom_spec(gp, src, v));
                lemma_action_step_wf(gp, bp, pair[0]);
                assert(gd.nodes[src].atoms == remove_values(g.nodes[src].atoms, names));
                assert(!gd.nodes[dst].atoms.contains(v));
                assert(gd.nodes.contains_key(dst));
                let sa = apply_action_spec(gd, bd, pair.drop_first()[0]);
                assert(sa is Ok) by {
                    assert(resolve_spec(bd, dst_t) == Some(dst));
                }
                let (ga, ba, inva) = sa->Ok_0;
                assert(ga == insert_atom_spec(gd, dst, v));
                lemma_action_step_wf(gd, bd, pair.drop_first()[0]);
                assert(apply_batch_spec(ga, ba, Seq::<ActionV>::empty()) == Ok::<
                    (GraphView, Map<usize, CutId>, Seq<ActionV>),
                    (GraphView, crate::calculus::action::error::ActionError),
                >((ga, ba, Seq::<ActionV>::empty())));
                assert(pair.drop_first().drop_first() =~= Seq::<ActionV>::empty());
                assert(apply_batch_spec(gd, bd, pair.drop_first()) == Ok::<
                    (GraphView, Map<usize, CutId>, Seq<ActionV>),
                    (GraphView, crate::calculus::action::error::ActionError),
                >((ga, ba, Seq::<ActionV>::empty().push(inva))));
                assert(apply_batch_spec(gp, bp, pair) == Ok::<
                    (GraphView, Map<usize, CutId>, Seq<ActionV>),
                    (GraphView, crate::calculus::action::error::ActionError),
                >((ga, ba, Seq::<ActionV>::empty().push(inva).push(invd))));
                assert(apply_batch_spec(gp, bp, pair)->Ok_0.0 == ga);
                assert(apply_batch_spec(gp, bp, pair)->Ok_0.1 == b);
                // The usage count dips for the moved name and comes right
                // back.
                assert(ga.usage =~= g.usage) by {
                    assert(gp.usage =~= g.usage);
                    assert(cuts_with(gp, v).contains(src));
                    assert(gp.usage.contains_key(v)) by {
                        if !gp.usage.contains_key(v) {
                            assert(cuts_with(gp, v) =~= Set::<CutId>::empty());
                        }
                    }
                    if gp.usage[v] == 1 {
                        assert(gd.usage == gp.usage.remove(v));
                        assert(ga.usage == gd.usage.insert(v, 1nat));
                    } else {
                        assert(gd.usage == gp.usage.insert(v, (gp.usage[v] - 1) as nat));
                        assert(ga.usage == gd.usage.insert(v, gp.usage[v]));
                    }
                }
                assert(ga.parent == g.parent);
                assert(ga.root == g.root);
                assert(ga.nodes =~~= g.nodes.insert(
                    src,
                    SubgraphView {
                        atoms: remove_values(g.nodes[src].atoms, names),
                        ..g.nodes[src]
                    },
                ).insert(
                    dst,
                    SubgraphView { atoms: g.nodes[dst].atoms + names, ..g.nodes[dst] },
                )) by {
                    assert(ga.nodes[dst].atoms =~= g.nodes[dst].atoms + names) by {
                        assert(ga.nodes[dst].atoms == gd.nodes[dst].atoms.push(v));
                        assert(gd.nodes[dst].atoms == g.nodes[dst].atoms + d);
                        assert((g.nodes[dst].atoms + d).push(v) =~= g.nodes[dst].atoms
                            + names);
                    }
                }
            },
        }
    }
}

/// Double-Cut Draw's atom segment is a transfer into the inner slot.
proof fn lemma_dcd_atoms_shape(t: CutId, names: Seq<Seq<char>>)
    ensures
        crate::calculus::inference_rule::double_cut_draw::dcd_atom_actions(t, names)
            == transfer_actions(GraphTarget::Exists(t), GraphTarget::Future(1), names),
    decreases names.len(),
{
    if names.len() > 0 {
        lemma_dcd_atoms_shape(t, names.drop_last());
    }
}

/// Double-Cut Erase's atom segment is a transfer from the inner ring to the
/// grandparent.
proof fn lemma_dce_atoms_shape(inner: CutId, p: CutId, names: Seq<Seq<char>>)
    ensures
        crate::calculus::inference_rule::double_cut_erase::dce_atom_actions(inner, p, names)
            == transfer_actions(GraphTarget::Exists(inner), GraphTarget::Exists(p), names),
    decreases names.len(),
{
    if names.len() > 0 {
        lemma_dce_atoms_shape(inner, p, names.drop_last());
    }
}

/// The structural identity behind the double-cut rules, for selections of
/// atoms: drawing a double cut around chosen distinct atoms of a cut, then
/// erasing that double cut, restores the graph up to the internal order of
/// atom and child lists. The two batches are exactly what the rules'
/// compilers emit for these selections; `o` and `n` witness the two fresh
/// ids the draw allocates.
pub proof fn lemma_double_cut_roundtrip_atoms(
    g: GraphView,
    t: CutId,
    names: Seq<Seq<char>>,
    o: CutId,
    n: CutId,
)
    requires
        wf(g),
        g.nodes.contains_key(t),
        names.no_duplicates(),
        forall|i: int| 0 <= i < names.len() ==> g.nodes[t].atoms.contains(#[trigger] names[i]),
        crate::graph::is_fresh_id(g, o),
        crate::graph::is_fresh_id(insert_node_spec(g, t, o), n),
    ensures
        match apply_batch_spec(
            g,
            Map::empty(),
            crate::calculus::inference_rule::double_cut_draw::dcd_actions(
                t,
                names,
                Seq::empty(),
            ),
        ) {
            Ok((g1, b1, invs1)) => {
                &&& g1.parent.contains_key(o) && g1.parent[o] == t
                &&& g1.nodes.contains_key(o) && g1.nodes[o].atoms.len() == 0
                &&& g1.nodes[o].subgraphs =~= seq![n]
                &&& match apply_batch_spec(
                    g1,
                    Map::empty(),
                    crate::calculus::inference_rule::double_cut_erase::dce_actions(
                        o,
                        n,
                        t,
                        g1.nodes[n].atoms,
                        g1.nodes[n].subgraphs,
                    ),
                ) {
                    Ok((g2, b2, invs2)) => equiv(g2, g),
                    Err(_) => false,
                }
            },
            Err(_) => false,
        },
{
    broadcast use Seq::lemma_push_to_set_commute;

    let b0 = Map::<usize, CutId>::empty();
    let a1 = ActionV::AddSubgraph {
        target: GraphTarget::Exists(t),
        new_subgraph: GraphTarget::Future(0),
    };
    let a2 = ActionV::AddSubgraph {
        target: GraphTarget::Future(0),
        new_subgraph: GraphTarget::Future(1),
    };
    let fwd = crate::calculus::inference_rule::double_cut_draw::dcd_actions(
        t,
        names,
        Seq::empty(),
    );
    lemma_dcd_atoms_shape(t, names);
    let moves = transfer_actions(GraphTarget::Exists(t), GraphTarget::Future(1), names);
    assert(crate::calculus::inference_rule::double_cut_draw::dcd_move_actions(Seq::empty())
        =~= Seq::<ActionV>::empty());
    assert(fwd =~= seq![a1, a2] + moves);
    // The two opening steps allocate the outer cut o under t and the inner
    // cut n under o.
    crate::graph::lemma_fresh_id_unique(g, o);
    assert(!g.nodes.contains_key(o));
    assert(o != t);
    let s1 = apply_action_spec(g, b0, a1);
    assert(!b0.contains_key(0));
    assert(s1 == Ok::<(GraphView, Map<usize, CutId>, ActionV),
        crate::calculus::action::error::ActionError,
    >((insert_node_spec(g, t, o), b0.insert(0, o), ActionV::DeleteSubgraph {
        target: GraphTarget::Exists(o),
    })));
    let gv1 = insert_node_spec(g, t, o);
    let b1 = b0.insert(0, o);
    lemma_insert_node_spec_wf(g, t, o);
    crate::graph::lemma_fresh_id_unique(gv1, n);
    assert(!gv1.nodes.contains_key(n));
    assert(n != t && n != o);
    let s2 = apply_action_spec(gv1, b1, a2);
    assert(resolve_spec(b1, GraphTarget::Future(0)) == Some(o));
    assert(!b1.contains_key(1));
    assert(gv1.nodes.contains_key(o));
    assert(s2 == Ok::<(GraphView, Map<usize, CutId>, ActionV),
        crate::calculus::action::error::ActionError,
    >((insert_node_spec(gv1, o, n), b1.insert(1, n), ActionV::DeleteSubgraph {
        target: GraphTarget::Exists(n),
    })));
    let gv2 = insert_node_spec(gv1, o, n);
    let b2 = b1.insert(1, n);
    lemma_insert_node_spec_wf(gv1, o, n);
    assert(apply_batch_spec(g, b0, seq![a1, a2]) is Ok
        && apply_batch_spec(g, b0, seq![a1, a2])->Ok_0.0 == gv2
        && apply_batch_spec(g, b0, seq![a1, a2])->Ok_0.1 == b2) by {
        assert(seq![a1, a2][0] == a1);
        assert(seq![a1, a2].drop_first() =~= seq![a2]);
        assert(seq![a2][0] == a2);
        assert(seq![a2].drop_first() =~= Seq::<ActionV>::empty());
        assert(apply_batch_spec(gv2, b2, Seq::<ActionV>::empty()) == Ok::<
            (GraphView, Map<usize, CutId>, Seq<ActionV>),
            (GraphView, crate::calculus::action::error::ActionError),
        >((gv2, b2, Seq::<ActionV>::empty())));
        assert(apply_batch_spec(gv1, b1, seq![a2]) == Ok::<
            (GraphView, Map<usize, CutId>, Seq<ActionV>),
            (GraphView, crate::calculus::action::error::ActionError),
        >((gv2, b2, Seq::<ActionV>::empty().push(ActionV::DeleteSubgraph {
            target: GraphTarget::Exists(n),
        }))));
    }
    // Shape of the freshly drawn double cut.
    assert(gv2.nodes[t] == SubgraphView {
        subgraphs: g.nodes[t].subgraphs.push(o),
        ..g.nodes[t]
    });
    assert(gv2.nodes[o].atoms =~= Seq::<Seq<char>>::empty());
    assert(gv2.nodes[o].subgraphs =~= seq![n]);
    assert(gv2.nodes[n].atoms =~= Seq::<Seq<char>>::empty());
    assert(gv2.nodes[n].subgraphs =~= Seq::<CutId>::empty());
    assert(gv2.parent =~= g.parent.insert(o, t).insert(n, o));
    assert(gv2.usage == g.usage && gv2.root == g.root);
    // Move the selected atoms into the inner cut.
    lemma_transfer_fold(gv2, b2, GraphTarget::Exists(t), GraphTarget::Future(1), t, n, names);
    lemma_batch_append(g, b0, seq![a1, a2], moves);
    match apply_batch_spec(gv2, b2, moves) {
        Err(_) => {
            assert(false);
        },
        Ok((gv3, b3, invs3)) => {
            assert(b3 == b2);
            assert(apply_batch_spec(g, b0, fwd) is Ok);
            assert(apply_batch_spec(g, b0, fwd)->Ok_0.0 == gv3);
            assert(gv3.nodes =~~= gv2.nodes.insert(
                t,
                SubgraphView {
                    atoms: remove_values(g.nodes[t].atoms, names),
                    ..gv2.nodes[t]
                },
            ).insert(n, SubgraphView { atoms: gv2.nodes[n].atoms + names, ..gv2.nodes[n] }));
            assert(gv3.parent == gv2.parent && gv3.usage =~= g.usage && gv3.root == g.root);
            assert(gv3.parent.contains_key(o) && gv3.parent[o] == t);
            assert(gv3.nodes.contains_key(o));
            assert(gv3.nodes[o] == gv2.nodes[o]);
            assert(gv3.nodes[o].atoms.len() == 0);
            assert(gv3.nodes[o].subgraphs =~= seq![n]);
            assert(gv3.nodes[n].atoms =~= names);
            assert(gv3.nodes[n].subgraphs == gv2.nodes[n].subgraphs);
            // The erase batch takes them back out and deletes both rings.
            let back = crate::calculus::inference_rule::double_cut_erase::dce_actions(
                o,
                n,
                t,
                gv3.nodes[n].atoms,
                gv3.nodes[n].subgraphs,
            );
            lemma_dce_atoms_shape(n, t, gv3.nodes[n].atoms);
            assert(gv3.nodes[n].atoms == names);
            assert(crate::calculus::inference_rule::double_cut_erase::dce_move_actions(
                t,
                gv3.nodes[n].subgraphs,
            ) =~= Seq::<ActionV>::empty());
            let dn = ActionV::DeleteSubgraph { target: GraphTarget::Exists(n) };
            let dd = ActionV::DeleteSubgraph { target: GraphTarget::Exists(o) };
            let moves_back = transfer_actions(
                GraphTarget::Exists(n),
                GraphTarget::Exists(t),
                names,
            );
            assert(back =~= moves_back + seq![dn, dd]);
            assert(g.nodes[t].atoms.no_duplicates());
            lemma_remove_values_props(g.nodes[t].atoms, names);
            assert forall|i: int| 0 <= i < names.len()
                implies gv3.nodes[n].atoms.contains(#[trigger] names[i]) by {
                assert(gv3.nodes[n].atoms[i] == names[i]);
            }
            assert forall|i: int| 0 <= i < names.len()
                implies !gv3.nodes[t].atoms.contains(#[trigger] names[i]) by {
                assert(gv3.nodes[t].atoms == remove_values(g.nodes[t].atoms, names));
                assert(names.contains(names[i]));
            }
            lemma_transfer_fold(
                gv3,
                b0,
                GraphTarget::Exists(n),
                GraphTarget::Exists(t),
                n,
                t,
                names,
            );
            lemma_batch_append(gv3, b0, moves_back, seq![dn, dd]);
            match apply_batch_spec(gv3, b0, moves_back) {
                Err(_) => {
                    assert(false);
                },
                Ok((gv4, b4, invs4)) => {
                    assert(b4 == b0);
                    assert(gv4.nodes =~~= gv3.nodes.insert(
                        n,
                        SubgraphView {
                            atoms: remove_values(gv3.nodes[n].atoms, names),
                            ..gv3.nodes[n]
                        },
                    ).insert(
                        t,
                        SubgraphView {
                            atoms: gv3.nodes[t].atoms + names,
                            ..gv3.nodes[t]
                        },
                    ));
                    assert(gv4.parent == gv3.parent && gv4.usage =~= g.usage && gv4.root
                        == g.root);
                    lemma_remove_values_props(names, names);
                    assert(gv4.nodes[n].atoms.len() == 0);
                    assert(gv4.nodes[n].subgraphs == gv2.nodes[n].subgraphs);
                    assert(gv4.nodes[n].subgraphs.len() == 0);
                    // Deleting the inner ring, then the outer ring.
                    let s5 = apply_action_spec(gv4, b0, dn);
                    assert(gv4.parent.contains_key(n) && gv4.parent[n] == o);
                    let gv5 = remove_leaf_spec(gv4, n);
                    assert(s5 == Ok::<(GraphView, Map<usize, CutId>, ActionV),
                        crate::calculus::action::error::ActionError,
                    >((gv5, b0, ActionV::AddSubgraph {
                        target: GraphTarget::Exists(o),
                        new_subgraph: GraphTarget::Exists(n),
                    })));
                    assert(gv4.nodes[o] == gv2.nodes[o]);
                    lemma_push_remove_value(Seq::<CutId>::empty(), n);
                    assert(gv2.nodes[o].subgraphs == Seq::<CutId>::empty().push(n));
                    assert(gv5.nodes[o].subgraphs =~= Seq::<CutId>::empty());
                    assert(gv5.nodes[o].atoms.len() == 0);
                    assert(gv5.parent =~= gv4.parent.remove(n));
                    let s6 = apply_action_spec(gv5, b0, dd);
                    assert(gv5.parent.contains_key(o) && gv5.parent[o] == t);
                    let gv6 = remove_leaf_spec(gv5, o);
                    assert(s6 == Ok::<(GraphView, Map<usize, CutId>, ActionV),
                        crate::calculus::action::error::ActionError,
                    >((gv6, b0, ActionV::AddSubgraph {
                        target: GraphTarget::Exists(t),
                        new_subgraph: GraphTarget::Exists(o),
                    })));
                    assert(apply_batch_spec(gv3, b0, back) is Ok
                        && apply_batch_spec(gv3, b0, back)->Ok_0.0 == gv6) by {
                        assert(seq![dn, dd][0] == dn);
                        assert(seq![dn, dd].drop_first() =~= seq![dd]);
                        assert(seq![dd][0] == dd);
                        assert(seq![dd].drop_first() =~= Seq::<ActionV>::empty());
                        assert(apply_batch_spec(gv6, b0, Seq::<ActionV>::empty()) == Ok::<
                            (GraphView, Map<usize, CutId>, Seq<ActionV>),
                            (GraphView, crate::calculus::action::error::ActionError),
                        >((gv6, b0, Seq::<ActionV>::empty())));
                        assert(apply_batch_spec(gv5, b0, seq![dd]) == Ok::<
                            (GraphView, Map<usize, CutId>, Seq<ActionV>),
                            (GraphView, crate::calculus::action::error::ActionError),
                        >((gv6, b0, Seq::<ActionV>::empty().push(ActionV::AddSubgraph {
                            target: GraphTarget::Exists(t),
                            new_subgraph: GraphTarget::Exists(o),
                        }))));
                        assert(apply_batch_spec(gv4, b0, seq![dn, dd]) is Ok
                            && apply_batch_spec(gv4, b0, seq![dn, dd])->Ok_0.0 == gv6);
                    }
                    // What remains is the original graph, atom order aside.
                    assert(!g.nodes[t].subgraphs.contains(o)) by {
                        if g.nodes[t].subgraphs.contains(o) {
                            lemma_child_parent(g, t, o);
                        }
                    }
                    lemma_push_remove_value(g.nodes[t].subgraphs, o);
                    assert(gv5.nodes[t] == gv4.nodes[t]);
                    assert(gv6.nodes[t].subgraphs =~= g.nodes[t].subgraphs);
                    assert(gv6.parent =~= g.parent) by {
                        assert(!g.parent.contains_key(o) && !g.parent.contains_key(n)) by {
                            if g.parent.contains_key(o) {
                                assert(g.nodes.contains_key(o));
                            }
                            if g.parent.contains_key(n) {
                                assert(g.nodes.contains_key(n));
                            }
                        }
                    }
                    assert(gv6.usage =~= g.usage);
                    assert(gv6.root == g.root);
                    assert(gv6.nodes.dom() =~= g.nodes.dom());
                    assert forall|id: CutId| #[trigger] gv6.nodes.contains_key(id) implies {
                        &&& gv6.nodes[id].level == g.nodes[id].level
                        &&& gv6.nodes[id].atoms.to_set() =~= g.nodes[id].atoms.to_set()
                        &&& gv6.nodes[id].subgraphs.to_set() =~= g.nodes[id].subgraphs.to_set()
                    } by {
                        if id == t {
                            assert(gv6.nodes[t].atoms == gv4.nodes[t].atoms);
                            assert(gv4.nodes[t].atoms == remove_values(g.nodes[t].atoms, names)
                                + names);
                            assert forall|x: Seq<char>| gv6.nodes[t].atoms.contains(x)
                                <==> g.nodes[t].atoms.contains(x) by {
                                let lhs = remove_values(g.nodes[t].atoms, names) + names;
                                if lhs.contains(x) {
                                    let j = choose|j: int| 0 <= j < lhs.len() && lhs[j] == x;
                                    if j < remove_values(g.nodes[t].atoms, names).len() {
                                        assert(remove_values(g.nodes[t].atoms, names).contains(
                                            x,
                                        ));
                                    } else {
                                        let k = j - remove_values(
                                            g.nodes[t].atoms,
                                            names,
                                        ).len();
                                        assert(names[k] == x);
                                        assert(g.nodes[t].atoms.contains(names[k]));
                                    }
                                }
                                if g.nodes[t].atoms.contains(x) {
                                    if names.contains(x) {
                                        let k = choose|k: int|
                                            0 <= k < names.len() && names[k] == x;
                                        assert(lhs[remove_values(g.nodes[t].atoms, names).len()
                                            + k] == x);
                                    } else {
                                        assert(remove_values(g.nodes[t].atoms, names).contains(
                                            x,
                                        ));
                                        let k = choose|k: int|
                                            0 <= k < remove_values(
                                                g.nodes[t].atoms,
                                                names,
                                            ).len() && remove_values(
                                                g.nodes[t].atoms,
                                                names,
                                            )[k] == x;
                                        assert(lhs[k] == x);
                                    }
                                }
                            }
                            assert(gv6.nodes[t].level == g.nodes[t].level);
                        } else {
                            assert(id != o && id != n);
                            assert(gv6.nodes[id] == g.nodes[id]);
                        }
                    }
                    assert(equiv(gv6, g));
                },
            }
        },
    }
}

/// Removing a just-appended value restores the sequence exactly.
proof fn lemma_push_remove_value<A>(s: Seq<A>, v: A)
    requires
        !s.contains(v),
    ensures
        s.push(v).remove_value(v) =~= s,
{
    let p = s.push(v);
    assert(p[s.len() as int] == v);
    assert(p.contains(v));
    p.index_of_first_ensures(v);
    let i0 = p.index_of_first(v)->0;
    if i0 < s.len() {
        assert(p[i0] == s[i0]);
        assert(s.contains(v));
    }
    p.remove_ensures(i0);
}

/// Ancestry below a moved cut is untouched by the move: a cut lies in the
/// subtree of `t` after the move exactly when it did before.
proof fn lemma_move_same_subtree(g: GraphView, t: CutId, d: CutId, x: CutId)
    requires
        wf(g),
        g.nodes.contains_key(t),
        t != g.root,
        g.nodes.contains_key(d),
        !in_subtree(g, d, t),
        g.nodes.contains_key(x),
    ensures
        is_ancestor_of(move_spec(g, t, d), t, x) == is_ancestor_of(g, t, x),
    decreases move_spec(g, t, d).nodes[x].level,
{
    let g1 = move_spec(g, t, d);
    lemma_move_spec_wf(g, t, d);
    if x == t {
        if is_ancestor_of(g1, t, t) {
            lemma_ancestor_level(g1, t, t);
        }
        if is_ancestor_of(g, t, t) {
            lemma_ancestor_level(g, t, t);
        }
    } else if x == g.root {
        assert(g1.root == g.root);
    } else {
        assert(g.parent.contains_key(x));
        assert(g1.parent.contains_key(x));
        let px = g.parent[x];
        assert(g1.parent[x] == px);
        assert(g1.nodes[x].level == g1.nodes[px].level + 1);
        assert(g.nodes.contains_key(px));
        if px != t {
            lemma_move_same_subtree(g, t, d, px);
        }
    }
}

/// Ancestry is a function of the parent map alone, which structurally
/// equal graphs share.
proof fn lemma_equiv_same_ancestry(g: GraphView, h: GraphView, a: CutId, x: CutId)
    requires
        wf(g),
        wf(h),
        equiv(g, h),
        h.nodes.contains_key(x),
    ensures
        is_ancestor_of(h, a, x) == is_ancestor_of(g, a, x),
    decreases h.nodes[x].level,
{
    assert(g.nodes.contains_key(x));
    if x == h.root {
    } else {
        assert(h.parent.contains_key(x));
        assert(g.parent.contains_key(x));
        let px = h.parent[x];
        assert(g.parent[x] == px);
        assert(h.nodes[x].level == h.nodes[px].level + 1);
        assert(h.nodes.contains_key(px));
        lemma_equiv_same_ancestry(g, h, a, px);
    }
}

/// On structurally equal graphs, an action takes the same step: the same
/// outcome, the same bindings, the same recorded inverse, and structurally
/// equal results.
pub proof fn lemma_action_congruence(g: GraphView, h: GraphView, b: Map<usize, CutId>, a: ActionV)
    requires
        wf(g),
        wf(h),
        equiv(g, h),
        apply_action_spec(g, b, a) is Ok,
        action_effective(g, b, a),
    ensures
        match (apply_action_spec(g, b, a), apply_action_spec(h, b, a)) {
            (Ok((g1, bg, invg)), Ok((h1, bh, invh))) => equiv(g1, h1) && bg == bh && invg
                == invh,
            _ => false,
        },
{
    broadcast use Seq::lemma_push_to_set_commute;

    match a {
        ActionV::AddAtom { target, atom } => {
            let t = resolve_spec(b, target)->0;
            assert(h.nodes.contains_key(t));
            assert(!h.nodes[t].atoms.contains(atom)) by {
                assert(g.nodes[t].atoms.to_set() =~= h.nodes[t].atoms.to_set());
                if h.nodes[t].atoms.contains(atom) {
                    assert(h.nodes[t].atoms.to_set().contains(atom));
                    assert(g.nodes[t].atoms.to_set().contains(atom));
                }
            }
            let g1 = insert_atom_spec(g, t, atom);
            let h1 = insert_atom_spec(h, t, atom);
            assert(g1.usage =~= h1.usage);
            assert(g1.nodes.dom() =~= h1.nodes.dom());
            assert forall|id: CutId| #[trigger] g1.nodes.contains_key(id) implies {
                &&& g1.nodes[id].level == h1.nodes[id].level
                &&& g1.nodes[id].atoms.to_set() =~= h1.nodes[id].atoms.to_set()
                &&& g1.nodes[id].subgraphs.to_set() =~= h1.nodes[id].subgraphs.to_set()
            } by {
                assert(g.nodes.contains_key(id));
                if id == t {
                    assert(g1.nodes[t].atoms.to_set() =~= g.nodes[t].atoms.to_set().insert(
                        atom,
                    ));
                    assert(h1.nodes[t].atoms.to_set() =~= h.nodes[t].atoms.to_set().insert(
                        atom,
                    ));
                }
            }
            assert(equiv(g1, h1));
        },
        ActionV::DeleteAtom { target, atom } => {
            let t = resolve_spec(b, target)->0;
            assert(h.nodes.contains_key(t));
            assert(h.nodes[t].atoms.contains(atom)) by {
                assert(g.nodes[t].atoms.to_set() =~= h.nodes[t].atoms.to_set());
                assert(g.nodes[t].atoms.to_set().contains(atom));
            }
            let g1 = remove_atom_spec(g, t, atom);
            let h1 = remove_atom_spec(h, t, atom);
            lemma_no_dup_remove_value(g.nodes[t].atoms, atom);
            lemma_no_dup_remove_value(h.nodes[t].atoms, atom);
            assert(g1.usage =~= h1.usage);
            assert(g1.nodes.dom() =~= h1.nodes.dom());
            assert forall|id: CutId| #[trigger] g1.nodes.contains_key(id) implies {
                &&& g1.nodes[id].level == h1.nodes[id].level
                &&& g1.nodes[id].atoms.to_set() =~= h1.nodes[id].atoms.to_set()
                &&& g1.nodes[id].subgraphs.to_set() =~= h1.nodes[id].subgraphs.to_set()
            } by {
                assert(g.nodes.contains_key(id));
                if id == t {
                    assert forall|x: Seq<char>| g1.nodes[t].atoms.contains(x)
                        <==> h1.nodes[t].atoms.contains(x) by {
                        assert(g.nodes[t].atoms.contains(x) == h.nodes[t].atoms.contains(x))
                            by {
                            assert(g.nodes[t].atoms.to_set() =~= h.nodes[t].atoms.to_set());
                            if g.nodes[t].atoms.contains(x) {
                                assert(g.nodes[t].atoms.to_set().contains(x));
                            }
                            if h.nodes[t].atoms.contains(x) {
                                assert(h.nodes[t].atoms.to_set().contains(x));
                            }
                        }
                    }
                }
            }
            assert(equiv(g1, h1));
        },
        ActionV::AddSubgraph { target, new_subgraph } => {
            let t = resolve_spec(b, target)->0;
            assert(h.nodes.contains_key(t));
            let nid: CutId = match new_subgraph {
                GraphTarget::Exists(nid) => nid,
                GraphTarget::Future(k) => crate::graph::fresh_id(g),
            };
            assert(!g.nodes.contains_key(nid) && !h.nodes.contains_key(nid)) by {
                match new_subgraph {
                    GraphTarget::Exists(x) => {},
                    GraphTarget::Future(k) => {
                        assert(crate::graph::is_fresh_id(g, nid));
                    },
                }
            }
            if new_subgraph is Future {
                assert(crate::graph::is_fresh_id(h, nid)) by {
                    assert(crate::graph::is_fresh_id(g, nid));
                }
                crate::graph::lemma_fresh_id_unique(h, nid);
                assert(crate::graph::fresh_id(h) == nid);
            }
            let g1 = insert_node_spec(g, t, nid);
            let h1 = insert_node_spec(h, t, nid);
            assert(g1.usage =~= h1.usage);
            assert(g1.parent =~= h1.parent);
            assert(g1.nodes.dom() =~= h1.nodes.dom());
            assert forall|id: CutId| #[trigger] g1.nodes.contains_key(id) implies {
                &&& g1.nodes[id].level == h1.nodes[id].level
                &&& g1.nodes[id].atoms.to_set() =~= h1.nodes[id].atoms.to_set()
                &&& g1.nodes[id].subgraphs.to_set() =~= h1.nodes[id].subgraphs.to_set()
            } by {
                if id == nid {
                } else {
                    assert(g.nodes.contains_key(id));
                    if id == t {
                        assert(g1.nodes[t].subgraphs.to_set() =~= g.nodes[t].subgraphs.to_set()
                            .insert(nid));
                        assert(h1.nodes[t].subgraphs.to_set() =~= h.nodes[t].subgraphs.to_set()
                            .insert(nid));
                    }
                }
            }
            assert(equiv(g1, h1));
        },
        ActionV::DeleteSubgraph { target } => {
            let t = resolve_spec(b, target)->0;
            let p = g.parent[t];
            assert(h.parent.contains_key(t) && h.parent[t] == p);
            assert(g.nodes.contains_key(t) && h.nodes.contains_key(t));
            assert(h.nodes[t].atoms.len() == 0) by {
                g.nodes[t].atoms.unique_seq_to_set();
                h.nodes[t].atoms.unique_seq_to_set();
                assert(g.nodes[t].atoms.to_set() =~= h.nodes[t].atoms.to_set());
            }
            assert(h.nodes[t].subgraphs.len() == 0) by {
                g.nodes[t].subgraphs.unique_seq_to_set();
                h.nodes[t].subgraphs.unique_seq_to_set();
                assert(g.nodes[t].subgraphs.to_set() =~= h.nodes[t].subgraphs.to_set());
            }
            let g1 = remove_leaf_spec(g, t);
            let h1 = remove_leaf_spec(h, t);
            assert(g.nodes.contains_key(p) && g.nodes[p].subgraphs.contains(t));
            assert(h.nodes.contains_key(p));
            assert(h.nodes[p].subgraphs.contains(t)) by {
                assert(g.nodes[p].subgraphs.to_set() =~= h.nodes[p].subgraphs.to_set());
                assert(g.nodes[p].subgraphs.to_set().contains(t));
            }
            lemma_no_dup_remove_value(g.nodes[p].subgraphs, t);
            lemma_no_dup_remove_value(h.nodes[p].subgraphs, t);
            assert(g1.usage =~= h1.usage);
            assert(g1.parent =~= h1.parent);
            assert(g1.nodes.dom() =~= h1.nodes.dom());
            assert forall|id: CutId| #[trigger] g1.nodes.contains_key(id) implies {
                &&& g1.nodes[id].level == h1.nodes[id].level
                &&& g1.nodes[id].atoms.to_set() =~= h1.nodes[id].atoms.to_set()
                &&& g1.nodes[id].subgraphs.to_set() =~= h1.nodes[id].subgraphs.to_set()
            } by {
                assert(g.nodes.contains_key(id));
                if id == p {
                    assert forall|x: CutId| g1.nodes[p].subgraphs.contains(x)
                        <==> h1.nodes[p].subgraphs.contains(x) by {
                        assert(g.nodes[p].subgraphs.contains(x) == h.nodes[p].subgraphs.contains(
                            x,
                        )) by {
                            assert(g.nodes[p].subgraphs.to_set() =~= h.nodes[
                                p
                            ].subgraphs.to_set());
                            if g.nodes[p].subgraphs.contains(x) {
                                assert(g.nodes[p].subgraphs.to_set().contains(x));
                            }
                            if h.nodes[p].subgraphs.contains(x) {
                                assert(h.nodes[p].subgraphs.to_set().contains(x));
                            }
                        }
                    }
                }
            }
            assert(equiv(g1, h1));
        },
        ActionV::MoveSubgraph { target, dest } => {
            let t = resolve_spec(b, target)->0;
            let d = resolve_spec(b, dest)->0;
            let s = g.parent[t];
            assert(h.parent.contains_key(t) && h.parent[t] == s);
            assert(g.nodes.contains_key(t) && h.nodes.contains_key(t));
            assert(g.nodes.contains_key(d) && h.nodes.contains_key(d));
            assert(t != g.root && t != h.root);
            assert(!in_subtree(g, d, t));
            assert(!in_subtree(h, d, t)) by {
                if d != t {
                    lemma_equiv_same_ancestry(g, h, t, d);
                }
            }
            let g1 = move_spec(g, t, d);
            let h1 = move_spec(h, t, d);
            assert(g.nodes.contains_key(s) && h.nodes.contains_key(s));
            assert(g.nodes[s].subgraphs.contains(t));
            assert(h.nodes[s].subgraphs.contains(t)) by {
                assert(g.nodes[s].subgraphs.to_set() =~= h.nodes[s].subgraphs.to_set());
                assert(g.nodes[s].subgraphs.to_set().contains(t));
            }
            lemma_no_dup_remove_value(g.nodes[s].subgraphs, t);
            lemma_no_dup_remove_value(h.nodes[s].subgraphs, t);
            assert(g1.usage =~= h1.usage);
            assert(g1.parent =~= h1.parent);
            assert(g1.nodes.dom() =~= h1.nodes.dom());
            assert forall|id: CutId| #[trigger] g1.nodes.contains_key(id) implies {
                &&& g1.nodes[id].level == h1.nodes[id].level
                &&& g1.nodes[id].atoms.to_set() =~= h1.nodes[id].atoms.to_set()
                &&& g1.nodes[id].subgraphs.to_set() =~= h1.nodes[id].subgraphs.to_set()
            } by {
                assert(g.nodes.contains_key(id) && h.nodes.contains_key(id));
                lemma_equiv_same_ancestry(g, h, t, id);
                assert(in_subtree(g, id, t) == in_subtree(h, id, t));
                assert(g1.nodes[id].level == h1.nodes[id].level);
                assert forall|x: CutId| g.nodes[id].subgraphs.contains(x)
                    == h.nodes[id].subgraphs.contains(x) by {
                    assert(g.nodes[id].subgraphs.to_set() =~= h.nodes[id].subgraphs.to_set());
                    if g.nodes[id].subgraphs.contains(x) {
                        assert(g.nodes[id].subgraphs.to_set().contains(x));
                    }
                    if h.nodes[id].subgraphs.contains(x) {
                        assert(h.nodes[id].subgraphs.to_set().contains(x));
                    }
                }
                assert forall|x: CutId| g1.nodes[id].subgraphs.contains(x)
                    <==> h1.nodes[id].subgraphs.contains(x) by {}
            }
            assert(equiv(g1, h1));
        },
    }
}

/// Applying an effective action and then its recorded inverse restores the
/// graph, up to the order of atom and child lists, and keeps it
/// well-formed throughout.
pub proof fn lemma_action_inverse(g: GraphView, b: Map<usize, CutId>, a: ActionV)
    requires
        wf(g),
        apply_action_spec(g, b, a) is Ok,
        action_effective(g, b, a),
    ensures
        ({
            let (g1, b1, inv) = apply_action_spec(g, b, a)->Ok_0;
            &&& wf(g1)
            &&& exists_only(inv)
            &&& action_effective(g1, Map::empty(), inv)
            &&& match apply_action_spec(g1, Map::empty(), inv) {
                Ok((g2, b2, inv2)) => equiv(g2, g),
                Err(_) => false,
            }
        }),
{
    let (g1, b1, inv) = apply_action_spec(g, b, a)->Ok_0;
    match a {
        ActionV::AddAtom { target, atom } => {
            let t = resolve_spec(b, target)->0;
            lemma_insert_atom_spec_wf(g, t, atom);
            assert(g1 == insert_atom_spec(g, t, atom));
            assert(g1.nodes[t].atoms == g.nodes[t].atoms.push(atom));
            assert(g1.nodes[t].atoms.contains(atom));
            let g2 = remove_atom_spec(g1, t, atom);
            lemma_push_remove_value(g.nodes[t].atoms, atom);
            assert(g2.nodes[t].atoms == g.nodes[t].atoms.push(atom).remove_value(atom));
            assert(g2.nodes =~~= g.nodes);
            if g.usage.contains_key(atom) {
                assert(g.usage[atom] >= 1);
                assert(g1.usage[atom] == g.usage[atom] + 1);
                assert(g2.usage =~= g.usage);
            } else {
                assert(g1.usage[atom] == 1);
                assert(g2.usage =~= g.usage);
            }
            assert(g2 =~~= g);
            assert(equiv(g2, g));
        },
        ActionV::DeleteAtom { target, atom } => {
            let t = resolve_spec(b, target)->0;
            lemma_remove_atom_spec_wf(g, t, atom);
            // The atom being deleted sits in the graph, so its name fits
            // the grammar and the restoring add succeeds.
            assert(crate::atom::valid_atom_name(atom)) by {
                let j = choose|j: int|
                    0 <= j < g.nodes[t].atoms.len() && g.nodes[t].atoms[j] == atom;
                assert(crate::atom::valid_atom_name(g.nodes[t].atoms[j]));
            }
            assert(g1 == remove_atom_spec(g, t, atom));
            assert(g.nodes[t].atoms.no_duplicates());
            lemma_no_dup_remove_value(g.nodes[t].atoms, atom);
            assert(g1.nodes[t].atoms == g.nodes[t].atoms.remove_value(atom));
            assert(!g1.nodes[t].atoms.contains(atom));
            let g2 = insert_atom_spec(g1, t, atom);
            assert(g2.nodes[t].atoms == g1.nodes[t].atoms.push(atom));
            // Same atom set, one count down and back up.
            assert(g2.nodes[t].atoms.to_set() =~= g.nodes[t].atoms.to_set()) by {
                assert forall|x: Seq<char>| g2.nodes[t].atoms.contains(x)
                    <==> g.nodes[t].atoms.contains(x) by {}
            }
            assert(g.usage.contains_key(atom));
            assert(g.usage[atom] >= 1);
            if g.usage[atom] == 1 {
                assert(g1.usage == g.usage.remove(atom));
                assert(!g1.usage.contains_key(atom));
                assert(g2.usage =~= g.usage);
            } else {
                assert(g1.usage == g.usage.insert(atom, (g.usage[atom] - 1) as nat));
                assert(g1.usage.contains_key(atom));
                assert(g2.usage =~= g.usage);
            }
            assert(g2.nodes.dom() =~= g.nodes.dom());
            assert forall|id: CutId| #[trigger] g2.nodes.contains_key(id) implies {
                &&& g2.nodes[id].level == g.nodes[id].level
                &&& g2.nodes[id].atoms.to_set() =~= g.nodes[id].atoms.to_set()
                &&& g2.nodes[id].subgraphs.to_set() =~= g.nodes[id].subgraphs.to_set()
            } by {}
            assert(equiv(g2, g));
        },
        ActionV::AddSubgraph { target, new_subgraph } => {
            let t = resolve_spec(b, target)->0;
            let nid: CutId = match new_subgraph {
                GraphTarget::Exists(nid) => nid,
                GraphTarget::Future(k) => crate::graph::fresh_id(g),
            };
            assert(!g.nodes.contains_key(nid)) by {
                match new_subgraph {
                    GraphTarget::Exists(x) => {},
                    GraphTarget::Future(k) => {
                        assert(crate::graph::is_fresh_id(g, nid));
                    },
                }
            }
            lemma_insert_node_spec_wf(g, t, nid);
            assert(g1 == insert_node_spec(g, t, nid));
            assert(inv == ActionV::DeleteSubgraph { target: GraphTarget::Exists(nid) });
            assert(g1.parent.contains_key(nid) && g1.parent[nid] == t);
            assert(g1.nodes[nid].atoms.len() == 0 && g1.nodes[nid].subgraphs.len() == 0);
            let g2 = remove_leaf_spec(g1, nid);
            assert(nid != t);
            assert(g1.nodes[t].subgraphs == g.nodes[t].subgraphs.push(nid));
            assert(!g.nodes[t].subgraphs.contains(nid)) by {
                if g.nodes[t].subgraphs.contains(nid) {
                    lemma_child_parent(g, t, nid);
                }
            }
            lemma_push_remove_value(g.nodes[t].subgraphs, nid);
            assert(g2.nodes =~~= g.nodes);
            assert(g2.parent =~= g.parent);
            assert(g2 =~~= g);
            assert(equiv(g2, g));
        },
        ActionV::DeleteSubgraph { target } => {
            let t = resolve_spec(b, target)->0;
            let p = g.parent[t];
            assert(g.parent.contains_key(t));
            assert(g.nodes.contains_key(t) && t != g.root);
            assert(g.nodes[t].atoms.len() == 0 && g.nodes[t].subgraphs.len() == 0);
            lemma_remove_leaf_spec_wf(g, t);
            assert(g1 == remove_leaf_spec(g, t));
            assert(inv == ActionV::AddSubgraph {
                target: GraphTarget::Exists(p),
                new_subgraph: GraphTarget::Exists(t),
            });
            assert(p != t) by {
                assert(g.nodes[t].level == g.nodes[p].level + 1);
            }
            assert(!g1.nodes.contains_key(t));
            assert(g1.nodes.contains_key(p));
            let g2 = insert_node_spec(g1, p, t);
            lemma_no_dup_remove_value(g.nodes[p].subgraphs, t);
            assert(g2.nodes.dom() =~= g.nodes.dom());
            assert(g2.parent =~= g.parent);
            assert(g2.usage =~= g.usage);
            assert(g2.nodes[t].level == g.nodes[t].level) by {
                assert(g1.nodes[p].level == g.nodes[p].level);
                assert(g.nodes[t].level == g.nodes[p].level + 1);
            }
            assert(g2.nodes[t].atoms.to_set() =~= g.nodes[t].atoms.to_set());
            assert(g2.nodes[t].subgraphs.to_set() =~= g.nodes[t].subgraphs.to_set());
            assert(g2.nodes[p].subgraphs == g.nodes[p].subgraphs.remove_value(t).push(t));
            assert(g2.nodes[p].subgraphs.to_set() =~= g.nodes[p].subgraphs.to_set()) by {
                assert forall|x: CutId| g2.nodes[p].subgraphs.contains(x)
                    <==> g.nodes[p].subgraphs.contains(x) by {
                    assert(g.nodes[p].subgraphs.contains(t));
                }
            }
            assert forall|id: CutId| #[trigger] g2.nodes.contains_key(id) implies {
                &&& g2.nodes[id].level == g.nodes[id].level
                &&& g2.nodes[id].atoms.to_set() =~= g.nodes[id].atoms.to_set()
                &&& g2.nodes[id].subgraphs.to_set() =~= g.nodes[id].subgraphs.to_set()
            } by {
                if id != t && id != p {
                    assert(g2.nodes[id] == g.nodes[id]);
                }
            }
            assert(equiv(g2, g));
        },
        ActionV::MoveSubgraph { target, dest } => {
            let t = resolve_spec(b, target)->0;
            let d = resolve_spec(b, dest)->0;
            let s = g.parent[t];
            assert(g.parent.contains_key(t));
            assert(g.nodes.contains_key(t) && t != g.root);
            assert(g.nodes.contains_key(d) && !in_subtree(g, d, t));
            assert(g.nodes.contains_key(s));
            assert(g.nodes[s].subgraphs.contains(t));
            lemma_move_spec_wf(g, t, d);
            assert(g1 == move_spec(g, t, d));
            assert(inv == ActionV::MoveSubgraph {
                target: GraphTarget::Exists(t),
                dest: GraphTarget::Exists(s),
            });
            assert(g1.parent.contains_key(t) && g1.parent[t] == d);
            assert(s != t) by {
                assert(g.nodes[t].level == g.nodes[s].level + 1);
            }
            // The old parent is not swallowed by the moved subtree.
            assert(!in_subtree(g, s, t)) by {
                if is_ancestor_of(g, t, s) {
                    lemma_ancestor_level(g, t, s);
                }
            }
            lemma_move_same_subtree(g, t, d, s);
            assert(!in_subtree(g1, s, t));
            let g2 = move_spec(g1, t, s);
            assert(apply_action_spec(g1, Map::empty(), inv) == Ok::<
                (GraphView, Map<usize, CutId>, ActionV),
                crate::calculus::action::error::ActionError,
            >((g2, Map::empty(), ActionV::MoveSubgraph {
                target: GraphTarget::Exists(t),
                dest: GraphTarget::Exists(d),
            })));
            lemma_move_spec_wf(g1, t, s);
            assert(g2.parent =~= g.parent);
            assert(g2.usage =~= g.usage);
            assert(g2.nodes.dom() =~= g.nodes.dom());
            lemma_no_dup_remove_value(g.nodes[s].subgraphs, t);
            assert forall|id: CutId| #[trigger] g2.nodes.contains_key(id) implies {
                &&& g2.nodes[id].level == g.nodes[id].level
                &&& g2.nodes[id].atoms.to_set() =~= g.nodes[id].atoms.to_set()
                &&& g2.nodes[id].subgraphs.to_set() =~= g.nodes[id].subgraphs.to_set()
            } by {
                assert(g2.nodes[id].atoms == g1.nodes[id].atoms);
                assert(g1.nodes[id].atoms == g.nodes[id].atoms);
                // Levels: inside the subtree the two shifts cancel; outside
                // nothing moves.
                lemma_move_same_subtree(g, t, d, id);
                if in_subtree(g, id, t) {
                    assert(g.nodes[id].level >= g.nodes[t].level) by {
                        if id != t {
                            lemma_ancestor_level(g, t, id);
                        }
                    }
                    assert(g1.nodes[id].level == g.nodes[id].level - g.nodes[t].level
                        + g.nodes[d].level + 1);
                    assert(in_subtree(g1, id, t));
                    assert(g1.nodes[t].level == g.nodes[d].level + 1);
                    assert(g1.nodes[s].level == g.nodes[s].level);
                    assert(g2.nodes[id].level == g1.nodes[id].level - g1.nodes[t].level
                        + g1.nodes[s].level + 1);
                    assert(g.nodes[t].level == g.nodes[s].level + 1);
                } else {
                    assert(!in_subtree(g1, id, t));
                    assert(g1.nodes[id].level == g.nodes[id].level);
                    assert(g2.nodes[id].level == g1.nodes[id].level);
                }
                // Child lists: the destination gets t back out, the old
                // parent gets t back in.
                if id == s && id == d {
                    assert(g1.nodes[id].subgraphs == g.nodes[id].subgraphs.remove_value(t).push(
                        t,
                    ));
                    lemma_push_remove_value(g.nodes[id].subgraphs.remove_value(t), t);
                    assert(g2.nodes[id].subgraphs == g1.nodes[id].subgraphs.remove_value(t).push(
                        t,
                    ));
                    assert(g2.nodes[id].subgraphs =~= g.nodes[id].subgraphs.remove_value(t).push(
                        t,
                    ));
                    assert forall|x: CutId| g2.nodes[id].subgraphs.contains(x)
                        <==> g.nodes[id].subgraphs.contains(x) by {}
                } else if id == s {
                    assert(g1.nodes[s].subgraphs == g.nodes[s].subgraphs.remove_value(t));
                    assert(g2.nodes[s].subgraphs == g1.nodes[s].subgraphs.push(t));
                    assert forall|x: CutId| g2.nodes[s].subgraphs.contains(x)
                        <==> g.nodes[s].subgraphs.contains(x) by {}
                } else if id == d {
                    assert(g1.nodes[d].subgraphs == g.nodes[d].subgraphs.push(t));
                    assert(!g.nodes[d].subgraphs.contains(t)) by {
                        if g.nodes[d].subgraphs.contains(t) {
                            lemma_child_parent(g, d, t);
                        }
                    }
                    lemma_push_remove_value(g.nodes[d].subgraphs, t);
                    assert(g2.nodes[d].subgraphs == g1.nodes[d].subgraphs.remove_value(t));
                    assert(g2.nodes[d].subgraphs =~= g.nodes[d].subgraphs);
                } else {
                    assert(g2.nodes[id].subgraphs == g.nodes[id].subgraphs);
                }
            }
            assert(equiv(g2, g));
        },
    }
}

/// A batch extended by one action at the end: the fold of the whole equals
/// the fold of the prefix followed by the one extra step, with the extra
/// step's inverse prepended to the accumulated inverses.
proof fn lemma_batch_snoc(g: GraphView, b: Map<usize, CutId>, xs: Seq<ActionV>, y: ActionV)
    ensures
        apply_batch_spec(g, b, xs.push(y)) == (match apply_batch_spec(g, b, xs) {
            Ok((g1, b1, invs)) => match apply_action_spec(g1, b1, y) {
                Ok((g2, b2, inv)) => Ok((g2, b2, seq![inv] + invs)),
                Err(e) => Err((g1, e)),
            },
            Err(p) => Err(p),
        }),
    decreases xs.len(),
{
    let p = xs.push(y);
    if xs.len() == 0 {
        assert(p[0] == y);
        assert(p.drop_first() =~= Seq::<ActionV>::empty());
        match apply_action_spec(g, b, y) {
            Err(e) => {},
            Ok((g2, b2, inv)) => {
                assert(apply_batch_spec(g2, b2, Seq::<ActionV>::empty()) == Ok::<
                    (GraphView, Map<usize, CutId>, Seq<ActionV>),
                    (GraphView, crate::calculus::action::error::ActionError),
                >((g2, b2, Seq::<ActionV>::empty())));
                assert(Seq::<ActionV>::empty().push(inv) =~= seq![inv]
                    + Seq::<ActionV>::empty());
            },
        }
    } else {
        assert(p[0] == xs[0]);
        assert(p.drop_first() =~= xs.drop_first().push(y));
        match apply_action_spec(g, b, xs[0]) {
            Err(e) => {},
            Ok((g1, b1, inv0)) => {
                lemma_batch_snoc(g1, b1, xs.drop_first(), y);
                match apply_batch_spec(g1, b1, xs.drop_first()) {
                    Err(pp) => {},
                    Ok((gx, bx, invsx)) => {
                        match apply_action_spec(gx, bx, y) {
                            Err(e) => {},
                            Ok((g2, b2, invy)) => {
                                assert((seq![invy] + invsx).push(inv0) =~= seq![invy]
                                    + invsx.push(inv0));
                            },
                        }
                    },
                }
            },
        }
    }
}

/// The inverse law: a successfully applied batch of effective actions is
/// undone by its returned inverse batch, applied in order — the result is
/// the starting graph, up to the internal order of atom and child lists.
pub proof fn lemma_batch_inverse(g: GraphView, b: Map<usize, CutId>, acts: Seq<ActionV>)
    requires
        wf(g),
        apply_batch_spec(g, b, acts) is Ok,
        effective_batch(g, b, acts),
    ensures
        ({
            let (g_end, b_end, invs) = apply_batch_spec(g, b, acts)->Ok_0;
            match apply_batch_spec(g_end, Map::empty(), invs) {
                Ok((g2, b2, invs2)) => equiv(g2, g) && wf(g2),
                Err(_) => false,
            }
        }),
    decreases acts.len(),
{
    let (g_end, b_end, invs) = apply_batch_spec(g, b, acts)->Ok_0;
    if acts.len() == 0 {
        assert(g_end == g);
        assert(invs =~= Seq::<ActionV>::empty());
        assert(apply_batch_spec(g_end, Map::empty(), invs) == Ok::<
            (GraphView, Map<usize, CutId>, Seq<ActionV>),
            (GraphView, crate::calculus::action::error::ActionError),
        >((g_end, Map::empty(), Seq::<ActionV>::empty())));
        assert(equiv(g, g));
    } else {
        let a = acts[0];
        assert(apply_action_spec(g, b, a) is Ok) by {
            if apply_action_spec(g, b, acts[0]) is Err {
                assert(apply_batch_spec(g, b, acts) is Err);
            }
        }
        let (ga, ba, inva) = apply_action_spec(g, b, a)->Ok_0;
        let rest = acts.drop_first();
        match apply_batch_spec(ga, ba, rest) {
            Err(pp) => {
                assert(false);
            },
            Ok((gr, br, invr)) => {
                assert(g_end == gr && b_end == br && invs == invr.push(inva));
                lemma_action_step_wf(g, b, a);
                assert(effective_batch(ga, ba, rest));
                lemma_batch_inverse(ga, ba, rest);
                lemma_action_inverse(g, b, a);
                match apply_batch_spec(g_end, Map::empty(), invr) {
                    Err(_) => {
                        assert(false);
                    },
                    Ok((h, bh, invs2)) => {
                        assert(equiv(h, ga) && wf(h));
                        lemma_equiv_sym(h, ga);
                        lemma_action_congruence(ga, h, Map::empty(), inva);
                        let (g2a, b2a, inv2a) = apply_action_spec(ga, Map::empty(), inva)->Ok_0;
                        let (h2, bh2, invh2) = apply_action_spec(h, Map::empty(), inva)->Ok_0;
                        assert(equiv(g2a, h2));
                        lemma_step_bindings_irrelevant(h, bh, Map::empty(), inva);
                        lemma_batch_snoc(g_end, Map::empty(), invr, inva);
                        assert(apply_action_spec(h, bh, inva)->Ok_0.0 == h2);
                        lemma_equiv_sym(g2a, h2);
                        lemma_equiv_trans(h2, g2a, g);
                        lemma_action_step_wf(h, bh, inva);
                    },
                }
            },
        }
    }
}

} // verus!
