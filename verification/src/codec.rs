//! The textual codec: a bracket-nested concrete syntax for whole graphs.
//!
//! The grammar is `graph := "[" inner "]"`, `inner := item ("," item)*` or
//! empty, where an item is an atom (one or more characters other than
//! whitespace, brackets and commas) or a nested graph. Whitespace outside
//! atoms is ignored. The serializer writes the contents of one cut in this
//! form; the parser turns such a text into a batch of actions against a
//! chosen root cut, and never touches the graph itself.

use vstd::prelude::*;
use crate::atom::{Atom, is_ws, valid_atom_name};
use crate::calculus::action::{Action, ActionV, GraphTarget, actions_view, apply_batch_spec,
    lemma_batch_preserves_root};
use crate::calculus::action::error::ActionError;
use crate::graph::{Graph, GraphView, CutId, wf, names_ok, lemma_level_bound, empty_graph_view};
use crate::graph::error::{GraphError, GraphResult};

verus! {

broadcast use crate::graph::Graph::lemma_well_formed_wf;

/// Relies on `String::push`: it appends exactly the given character.
pub assume_specification[ String::push ](s: &mut String, c: char)
    ensures
        final(s)@ == old(s)@.push(c),
;

/// The serialization of a list of atom names: the names joined by commas.
pub open spec fn serialize_atoms(names: Seq<Seq<char>>) -> Seq<char>
    decreases names.len(),
{
    if names.len() == 0 {
        Seq::empty()
    } else if names.len() == 1 {
        names[0]
    } else {
        serialize_atoms(names.drop_last()) + seq![','] + names.last()
    }
}

/// The serialization of the cut `id` of `g`: its atoms followed by its child
/// cuts, comma-separated, inside one pair of brackets.
pub open spec fn serialize_spec(g: GraphView, id: CutId) -> Seq<char>
    decreases g.nodes.dom().len() - g.nodes[id].level, 2int,
    when wf(g) && g.nodes.dom().contains(id)
{
    proof {
        lemma_level_bound(g, id);
        assert forall|i: int| 0 <= i < g.nodes[id].subgraphs.len()
            implies g.nodes.dom().contains(#[trigger] g.nodes[id].subgraphs[i])
                && g.nodes[g.nodes[id].subgraphs[i]].level == g.nodes[id].level + 1 by {}
    }
    let names = g.nodes[id].atoms;
    let cs = g.nodes[id].subgraphs;
    let a = serialize_atoms(names);
    let c = serialize_children(g, cs, (g.nodes[id].level + 1) as nat);
    seq!['['] + (if names.len() == 0 {
        c
    } else if cs.len() == 0 {
        a
    } else {
        a + seq![','] + c
    }) + seq![']']
}

/// The serializations of a list of sibling cuts at level `clvl`, joined by
/// commas.
pub open spec fn serialize_children(g: GraphView, cs: Seq<CutId>, clvl: nat) -> Seq<char>
    decreases g.nodes.dom().len() - clvl, cs.len() + 3,
    when wf(g) && clvl <= g.nodes.dom().len() && (forall|i: int|
        0 <= i < cs.len() ==> g.nodes.dom().contains(#[trigger] cs[i]) && g.nodes[cs[i]].level
            == clvl)
{
    if cs.len() == 0 {
        Seq::empty()
    } else if cs.len() == 1 {
        serialize_spec(g, cs[0])
    } else {
        proof {
            assert(g.nodes.dom().contains(cs[cs.len() - 1]));
        }
        serialize_children(g, cs.drop_last(), clvl) + seq![','] + serialize_spec(g, cs.last())
    }
}

/// Appends the serialization of the cut `id` to `out`.
pub(crate) fn write_graph(graph: &Graph, id: CutId, out: &mut String)
    requires
        graph.well_formed(),
        graph@.nodes.contains_key(id),
    ensures
        final(out)@ == old(out)@ + serialize_spec(graph@, id),
    decreases graph@.nodes.dom().len() - graph@.nodes[id].level,
{
    let ghost g = graph@;
    out.push('[');
    let atoms = match graph.atoms_of(id) {
        Ok(v) => v,
        Err(_) => {
            proof {
                assert(false);
            }
            return ;
        },
    };
    let ghost names = g.nodes[id].atoms;
    let n = atoms.len();
    let ghost start = out@;
    for i in 0..n
        invariant
            graph.well_formed(),
            g == graph@,
            g.nodes.contains_key(id),
            n == atoms@.len(),
            names == g.nodes[id].atoms,
            crate::graph::subgraph::atom_names(atoms@) == names,
            out@ == start + serialize_atoms(names.take(i as int)),
    {
        if i > 0 {
            out.push(',');
        }
        let a: &Atom = &atoms[i];
        let mut k: usize = 0;
        let name = a.name();
        let m = name.as_str().unicode_len();
        let ghost mid = out@;
        while k < m
            invariant
                m == name@.len(),
                name@ == names[i as int],
                k <= m,
                out@ == mid + name@.take(k as int),
            decreases m - k,
        {
            let c = name.as_str().get_char(k);
            out.push(c);
            proof {
                assert(out@ =~= mid + name@.take(k + 1));
            }
            k = k + 1;
        }
        proof {
            assert(name@.take(m as int) =~= name@);
            assert(names.take(i + 1).drop_last() =~= names.take(i as int));
            assert(names.take(i + 1).last() == names[i as int]);
            if i == 0 {
                assert(out@ =~= start + serialize_atoms(names.take(1)));
            } else {
                assert(out@ =~= start + (serialize_atoms(names.take(i as int)) + seq![',']
                    + names[i as int]));
                assert(out@ =~= start + serialize_atoms(names.take(i + 1)));
            }
        }
    }
    proof {
        assert(names.take(n as int) =~= names);
    }
    let children = match graph.subgraphs_of(id) {
        Ok(v) => v,
        Err(_) => {
            proof {
                assert(false);
            }
            return ;
        },
    };
    let ghost cs = g.nodes[id].subgraphs;
    let ghost clvl = (g.nodes[id].level + 1) as nat;
    proof {
        lemma_level_bound(g, id);
        assert forall|j: int| 0 <= j < cs.len()
            implies g.nodes.dom().contains(#[trigger] cs[j]) && g.nodes[cs[j]].level
                == clvl by {}
    }
    // A local copy keeps the borrow of `graph` short around the recursion.
    let cn = children.len();
    let mut kids: Vec<CutId> = Vec::new();
    for j in 0..cn
        invariant
            cn == children@.len(),
            children@ == cs,
            kids@ == cs.take(j as int),
    {
        kids.push(children[j]);
        proof {
            assert(kids@ =~= cs.take(j + 1));
        }
    }
    proof {
        assert(kids@ =~= cs);
    }
    let ghost mid2 = out@;
    for j in 0..cn
        invariant
            graph.well_formed(),
            g == graph@,
            g.nodes.contains_key(id),
            cn == kids@.len(),
            kids@ == cs,
            n as int == names.len(),
            cs == g.nodes[id].subgraphs,
            names == g.nodes[id].atoms,
            clvl == (g.nodes[id].level + 1) as nat,
            clvl <= g.nodes.dom().len(),
            forall|jj: int| 0 <= jj < cs.len() ==> g.nodes.dom().contains(#[trigger] cs[jj])
                && g.nodes[cs[jj]].level == clvl,
            out@ == mid2 + (if j == 0 && names.len() > 0 && cs.len() > 0 {
                Seq::<char>::empty()
            } else if names.len() > 0 && cs.len() > 0 {
                seq![','] + serialize_children(g, cs.take(j as int), clvl)
            } else {
                serialize_children(g, cs.take(j as int), clvl)
            }),
    {
        if j > 0 || n > 0 {
            out.push(',');
        }
        let child = kids[j];
        proof {
            assert(g.nodes.dom().contains(cs[j as int]));
            lemma_level_bound(g, child);
        }
        write_graph(graph, child, out);
        proof {
            assert(cs.take(j + 1).drop_last() =~= cs.take(j as int));
            assert(cs.take(j + 1).last() == cs[j as int]);
            if j == 0 {
                assert(serialize_children(g, cs.take(1), clvl) == serialize_spec(
                    g,
                    cs[0],
                ));
                if names.len() > 0 {
                    assert(out@ =~= mid2 + (seq![','] + serialize_children(
                        g,
                        cs.take(1),
                        clvl,
                    )));
                } else {
                    assert(out@ =~= mid2 + serialize_children(g, cs.take(1), clvl));
                }
            } else {
                assert(serialize_children(g, cs.take(j + 1), clvl) == serialize_children(
                    g,
                    cs.take(j as int),
                    clvl,
                ) + seq![','] + serialize_spec(g, cs[j as int]));
                if names.len() > 0 {
                    assert(out@ =~= mid2 + (seq![','] + serialize_children(
                        g,
                        cs.take(j + 1),
                        clvl,
                    )));
                } else {
                    assert(out@ =~= mid2 + serialize_children(g, cs.take(j + 1), clvl));
                }
            }
        }
    }
    out.push(']');
    proof {
        assert(cs.take(cn as int) =~= cs);
        assert(out@ =~= old(out)@ + serialize_spec(g, id));
    }
}

/// The serialization of the cut `id` of `graph`, as a string.
pub fn transform_graph_into_string(graph: &Graph, id: CutId) -> (r: String)
    requires
        graph.well_formed(),
        graph@.nodes.contains_key(id),
    ensures
        r@ == serialize_spec(graph@, id),
{
    let mut out = String::new();
    write_graph(graph, id, &mut out);
    out
}

/// The parser's state after some prefix of the input: the stack of open
/// cuts (outermost first), the last `Future` slot handed out, the pending
/// atom characters, the actions emitted so far, and whether the outer
/// bracket has been closed.
#[verifier::ext_equal]
pub ghost struct ParseSt {
    pub root: CutId,
    pub levels: Seq<GraphTarget>,
    pub counter: usize,
    pub acc: Seq<char>,
    pub actions: Seq<ActionV>,
    pub done: bool,
}

/// The parser's state before any input.
pub open spec fn parse_init(root: CutId) -> ParseSt {
    ParseSt {
        root,
        levels: Seq::empty(),
        counter: 0,
        acc: Seq::empty(),
        actions: Seq::empty(),
        done: false,
    }
}

/// Emits the pending atom, if any, into the innermost open cut.
pub open spec fn parse_flush(st: ParseSt) -> ParseSt {
    if st.acc.len() > 0 {
        ParseSt {
            acc: Seq::empty(),
            actions: st.actions.push(
                ActionV::AddAtom { target: st.levels.last(), atom: st.acc },
            ),
            ..st
        }
    } else {
        st
    }
}

/// One character of parsing. `[` opens a cut: the outermost binds the
/// parser's root target, every inner one allocates a fresh `Future` slot and
/// emits the `AddSubgraph` for it. `,` and `]` emit the pending atom; `]`
/// also closes the innermost cut. Whitespace outside atoms is skipped. The
/// step fails on `[` straight after atom text, on anything but whitespace
/// outside the outer brackets, and on an unmatched `]`.
pub open spec fn parse_step(st: ParseSt, c: char) -> Result<ParseSt, GraphError> {
    if st.done {
        if is_ws(c) {
            Ok(st)
        } else {
            Err(GraphError::ParseError)
        }
    } else if c == '[' {
        if st.acc.len() > 0 {
            Err(GraphError::ParseError)
        } else if st.levels.len() == 0 {
            Ok(ParseSt { levels: seq![GraphTarget::Exists(st.root)], ..st })
        } else {
            let k = ((st.counter + 1) as usize);
            Ok(
                ParseSt {
                    counter: k,
                    actions: st.actions.push(
                        ActionV::AddSubgraph {
                            target: st.levels.last(),
                            new_subgraph: GraphTarget::Future(k),
                        },
                    ),
                    levels: st.levels.push(GraphTarget::Future(k)),
                    ..st
                },
            )
        }
    } else if c == ']' {
        if st.levels.len() == 0 {
            Err(GraphError::ParseError)
        } else {
            let st1 = parse_flush(st);
            Ok(
                ParseSt {
                    levels: st1.levels.drop_last(),
                    done: st1.levels.len() == 1,
                    ..st1
                },
            )
        }
    } else if c == ',' {
        if st.levels.len() == 0 {
            Err(GraphError::ParseError)
        } else {
            Ok(parse_flush(st))
        }
    } else if is_ws(c) {
        Ok(st)
    } else {
        if st.levels.len() == 0 {
            Err(GraphError::ParseError)
        } else {
            Ok(ParseSt { acc: st.acc.push(c), ..st })
        }
    }
}

/// The parser's state after the whole of `s`, or the error on which it
/// stopped.
pub open spec fn parse_fold(root: CutId, s: Seq<char>) -> Result<ParseSt, GraphError>
    decreases s.len(),
{
    if s.len() == 0 {
        Ok(parse_init(root))
    } else {
        match parse_fold(root, s.drop_last()) {
            Ok(st) => parse_step(st, s.last()),
            Err(e) => Err(e),
        }
    }
}

/// The batch that the text `s` parses to against the root target `root`:
/// the emitted actions, provided the input is one complete bracketed form.
pub open spec fn parse_spec(s: Seq<char>, root: CutId) -> Result<Seq<ActionV>, GraphError> {
    match parse_fold(root, s) {
        Ok(st) => if st.done {
            Ok(st.actions)
        } else {
            Err(GraphError::ParseError)
        },
        Err(e) => Err(e),
    }
}

/// Once a prefix fails to parse, the whole input fails.
proof fn lemma_parse_fold_err(root: CutId, s: Seq<char>, i: int)
    requires
        0 <= i <= s.len(),
        parse_fold(root, s.take(i)) is Err,
    ensures
        parse_fold(root, s) == parse_fold(root, s.take(i)),
    decreases s.len() - i,
{
    if i == s.len() {
        assert(s.take(i) =~= s);
    } else {
        assert(s.take(i + 1).drop_last() =~= s.take(i));
        assert(s.take(i + 1).last() == s[i]);
        lemma_parse_fold_err(root, s, i + 1);
    }
}

/// The parser's state after `s`, starting from the state `st`.
pub open spec fn parse_fold_from(st: ParseSt, s: Seq<char>) -> Result<ParseSt, GraphError>
    decreases s.len(),
{
    if s.len() == 0 {
        Ok(st)
    } else {
        match parse_fold_from(st, s.drop_last()) {
            Ok(st1) => parse_step(st1, s.last()),
            Err(e) => Err(e),
        }
    }
}

/// Folding from the initial state is the whole parse.
proof fn lemma_fold_from_init(root: CutId, s: Seq<char>)
    ensures
        parse_fold(root, s) == parse_fold_from(parse_init(root), s),
    decreases s.len(),
{
    if s.len() > 0 {
        lemma_fold_from_init(root, s.drop_last());
    }
}

/// Folding a concatenation folds the first part, then the second.
proof fn lemma_fold_append(st: ParseSt, s1: Seq<char>, s2: Seq<char>)
    ensures
        parse_fold_from(st, s1 + s2) == (match parse_fold_from(st, s1) {
            Ok(m) => parse_fold_from(m, s2),
            Err(e) => Err(e),
        }),
    decreases s2.len(),
{
    if s2.len() == 0 {
        assert(s1 + s2 =~= s1);
    } else {
        assert((s1 + s2).drop_last() =~= s1 + s2.drop_last());
        assert((s1 + s2).last() == s2.last());
        lemma_fold_append(st, s1, s2.drop_last());
    }
}

/// Folding the characters of one atom name accumulates exactly that name.
proof fn lemma_name_fold(st: ParseSt, n: Seq<char>)
    requires
        !st.done,
        st.levels.len() >= 1,
        forall|i: int| 0 <= i < n.len() ==> {
            &&& #[trigger] n[i] != '['
            &&& n[i] != ']'
            &&& n[i] != ','
            &&& !is_ws(n[i])
        },
    ensures
        parse_fold_from(st, n) == Ok::<ParseSt, GraphError>(
            ParseSt { acc: st.acc + n, ..st },
        ),
    decreases n.len(),
{
    if n.len() == 0 {
        assert(st.acc + n =~= st.acc);
        assert(ParseSt { acc: st.acc + n, ..st } =~= st);
    } else {
        lemma_name_fold(st, n.drop_last());
        let mid = ParseSt { acc: st.acc + n.drop_last(), ..st };
        assert(parse_step(mid, n.last()) == Ok::<ParseSt, GraphError>(
            ParseSt { acc: mid.acc.push(n.last()), ..mid },
        ));
        assert(mid.acc.push(n.last()) =~= st.acc + n);
        assert(ParseSt { acc: mid.acc.push(n.last()), ..mid } =~= ParseSt {
            acc: st.acc + n,
            ..st
        });
    }
}

/// Folding a comma-joined list of atom names succeeds, leaves the stack
/// alone, and ends with the last name still pending.
proof fn lemma_atoms_fold(st: ParseSt, names: Seq<Seq<char>>)
    requires
        !st.done,
        st.levels.len() >= 1,
        st.acc.len() == 0,
        forall|i: int| 0 <= i < names.len() ==> valid_atom_name(#[trigger] names[i]),
    ensures
        match parse_fold_from(st, serialize_atoms(names)) {
            Ok(st2) => {
                &&& st2.root == st.root
                &&& st2.levels == st.levels
                &&& !st2.done
                &&& st2.acc =~= (if names.len() == 0 {
                    Seq::<char>::empty()
                } else {
                    names.last()
                })
            },
            Err(_) => false,
        },
    decreases names.len(),
{
    if names.len() == 0 {
    } else if names.len() == 1 {
        assert(valid_atom_name(names[0]));
        lemma_name_fold(st, names[0]);
        assert(st.acc + names[0] =~= names[0]);
    } else {
        lemma_atoms_fold(st, names.drop_last());
        assert(valid_atom_name(names.last()));
        let part1 = serialize_atoms(names.drop_last());
        let whole = part1 + seq![','] + names.last();
        assert(serialize_atoms(names) == whole);
        lemma_fold_append(st, part1, seq![',']);
        lemma_fold_append(st, part1 + seq![','], names.last());
        assert(whole =~= (part1 + seq![',']) + names.last());
        match parse_fold_from(st, part1) {
            Err(_) => {
                assert(false);
            },
            Ok(st1) => {
                // The comma emits the pending name and clears it.
                assert(seq![','].drop_last() =~= Seq::<char>::empty());
                assert(seq![','].last() == ',');
                assert(parse_fold_from(st1, Seq::<char>::empty()) == Ok::<
                    ParseSt,
                    GraphError,
                >(st1));
                assert(parse_fold_from(st1, seq![',']) == parse_step(st1, ','));
                let st2 = parse_flush(st1);
                assert(st2.levels == st.levels && !st2.done && st2.acc.len() == 0
                    && st2.root == st.root);
                lemma_name_fold(st2, names.last());
                assert(st2.acc + names.last() =~= names.last());
            },
        }
    }
}

/// Folding the serialization of a cut, inside some open cut, succeeds and
/// returns to the same stack with nothing pending.
proof fn lemma_graph_fold(g: GraphView, id: CutId, st: ParseSt)
    requires
        wf(g),
        g.nodes.dom().contains(id),
        names_ok(g),
        !st.done,
        st.levels.len() >= 1,
        st.acc.len() == 0,
    ensures
        match parse_fold_from(st, serialize_spec(g, id)) {
            Ok(st2) => {
                &&& st2.root == st.root
                &&& st2.levels == st.levels
                &&& !st2.done
                &&& st2.acc.len() == 0
            },
            Err(_) => false,
        },
    decreases g.nodes.dom().len() - g.nodes[id].level, 2int,
{
    lemma_level_bound(g, id);
    assert forall|i: int| 0 <= i < g.nodes[id].subgraphs.len()
        implies g.nodes.dom().contains(#[trigger] g.nodes[id].subgraphs[i])
            && g.nodes[g.nodes[id].subgraphs[i]].level == g.nodes[id].level + 1 by {}
    let names = g.nodes[id].atoms;
    let cs = g.nodes[id].subgraphs;
    let clvl = (g.nodes[id].level + 1) as nat;
    let a = serialize_atoms(names);
    let c = serialize_children(g, cs, clvl);
    let inner: Seq<char> = if names.len() == 0 {
        c
    } else if cs.len() == 0 {
        a
    } else {
        a + seq![','] + c
    };
    let whole = seq!['['] + inner + seq![']'];
    assert(serialize_spec(g, id) == whole);
    assert(whole =~= (seq!['['] + inner) + seq![']']);
    lemma_fold_append(st, seq!['['], inner);
    lemma_fold_append(st, seq!['['] + inner, seq![']']);
    // The opening bracket pushes a fresh slot.
    assert(seq!['['].drop_last() =~= Seq::<char>::empty());
    assert(parse_fold_from(st, Seq::<char>::empty()) == Ok::<ParseSt, GraphError>(st));
    assert(parse_fold_from(st, seq!['[']) == parse_step(st, '['));
    let k = ((st.counter + 1) as usize);
    let st1 = ParseSt {
        counter: k,
        actions: st.actions.push(
            ActionV::AddSubgraph {
                target: st.levels.last(),
                new_subgraph: GraphTarget::Future(k),
            },
        ),
        levels: st.levels.push(GraphTarget::Future(k)),
        ..st
    };
    assert(parse_step(st, '[') == Ok::<ParseSt, GraphError>(st1));
    assert(names_valid_at(g, id));
    let stmid = lemma_inner_fold(g, names, cs, clvl, st1);
    // The closing bracket pops back to the caller's stack.
    assert(seq![']'].drop_last() =~= Seq::<char>::empty());
    assert(parse_fold_from(stmid, Seq::<char>::empty()) == Ok::<ParseSt, GraphError>(stmid));
    assert(parse_fold_from(stmid, seq![']']) == parse_step(stmid, ']'));
    let stf = parse_flush(stmid);
    assert(stf.levels == st1.levels);
    assert(stf.levels.len() == st.levels.len() + 1);
    assert(stf.levels.drop_last() =~= st.levels);
}

/// The atom names of one cut are all usable.
spec fn names_valid_at(g: GraphView, id: CutId) -> bool {
    forall|i: int| 0 <= i < g.nodes[id].atoms.len() ==> valid_atom_name(
        #[trigger] g.nodes[id].atoms[i],
    )
}

/// Folds the inner part of a cut's serialization — its atoms, a comma when
/// both parts are there, and its children — ending with the pending atom,
/// if any, emitted by a final flush folded in by the caller's `]` or `,`.
/// Returns the state just before that flush.
proof fn lemma_inner_fold(
    g: GraphView,
    names: Seq<Seq<char>>,
    cs: Seq<CutId>,
    clvl: nat,
    st: ParseSt,
) -> (r: ParseSt)
    requires
        wf(g),
        names_ok(g),
        clvl <= g.nodes.dom().len(),
        forall|i: int| 0 <= i < cs.len() ==> g.nodes.dom().contains(#[trigger] cs[i])
            && g.nodes[cs[i]].level == clvl,
        forall|i: int| 0 <= i < names.len() ==> valid_atom_name(#[trigger] names[i]),
        !st.done,
        st.levels.len() >= 1,
        st.acc.len() == 0,
    ensures
        ({
            let inner: Seq<char> = if names.len() == 0 {
                serialize_children(g, cs, clvl)
            } else if cs.len() == 0 {
                serialize_atoms(names)
            } else {
                serialize_atoms(names) + seq![','] + serialize_children(g, cs, clvl)
            };
            &&& parse_fold_from(st, inner) == Ok::<ParseSt, GraphError>(r)
            &&& r.root == st.root
            &&& r.levels == st.levels
            &&& !r.done
            &&& (cs.len() > 0 ==> r.acc.len() == 0)
            &&& (cs.len() == 0 && names.len() == 0 ==> r.acc.len() == 0)
        }),
    decreases g.nodes.dom().len() - clvl, cs.len() + 4,
{
    if names.len() == 0 {
        lemma_children_fold(g, cs, clvl, st)
    } else if cs.len() == 0 {
        lemma_atoms_fold(st, names);
        parse_fold_from(st, serialize_atoms(names))->Ok_0
    } else {
        let a = serialize_atoms(names);
        let c = serialize_children(g, cs, clvl);
        let inner = a + seq![','] + c;
        assert(inner =~= (a + seq![',']) + c);
        lemma_fold_append(st, a, seq![',']);
        lemma_fold_append(st, a + seq![','], c);
        lemma_atoms_fold(st, names);
        let st1 = parse_fold_from(st, a)->Ok_0;
        assert(seq![','].drop_last() =~= Seq::<char>::empty());
        assert(parse_fold_from(st1, Seq::<char>::empty()) == Ok::<ParseSt, GraphError>(st1));
        assert(parse_fold_from(st1, seq![',']) == parse_step(st1, ','));
        let st2 = parse_flush(st1);
        assert(st2.levels == st.levels && !st2.done && st2.acc.len() == 0
            && st2.root == st.root);
        lemma_children_fold(g, cs, clvl, st2)
    }
}

/// Folds the serializations of a list of sibling cuts, comma-joined.
proof fn lemma_children_fold(g: GraphView, cs: Seq<CutId>, clvl: nat, st: ParseSt) -> (r: ParseSt)
    requires
        wf(g),
        names_ok(g),
        clvl <= g.nodes.dom().len(),
        forall|i: int| 0 <= i < cs.len() ==> g.nodes.dom().contains(#[trigger] cs[i])
            && g.nodes[cs[i]].level == clvl,
        !st.done,
        st.levels.len() >= 1,
        st.acc.len() == 0,
    ensures
        parse_fold_from(st, serialize_children(g, cs, clvl)) == Ok::<ParseSt, GraphError>(r),
        r.root == st.root,
        r.levels == st.levels,
        !r.done,
        r.acc.len() == 0,
    decreases g.nodes.dom().len() - clvl, cs.len() + 3,
{
    if cs.len() == 0 {
        st
    } else if cs.len() == 1 {
        assert(g.nodes.dom().contains(cs[0]));
        lemma_graph_fold(g, cs[0], st);
        parse_fold_from(st, serialize_spec(g, cs[0]))->Ok_0
    } else {
        assert(g.nodes.dom().contains(cs.last()));
        let part1 = serialize_children(g, cs.drop_last(), clvl);
        let part2 = serialize_spec(g, cs.last());
        let whole = part1 + seq![','] + part2;
        assert(serialize_children(g, cs, clvl) == whole);
        assert(whole =~= (part1 + seq![',']) + part2);
        lemma_fold_append(st, part1, seq![',']);
        lemma_fold_append(st, part1 + seq![','], part2);
        let st1 = lemma_children_fold(g, cs.drop_last(), clvl, st);
        assert(seq![','].drop_last() =~= Seq::<char>::empty());
        assert(parse_fold_from(st1, Seq::<char>::empty()) == Ok::<ParseSt, GraphError>(st1));
        assert(parse_fold_from(st1, seq![',']) == parse_step(st1, ','));
        let st2 = parse_flush(st1);
        assert(st2 == st1);
        lemma_graph_fold(g, cs.last(), st2);
        parse_fold_from(st2, part2)->Ok_0
    }
}

/// One side of the textual round trip: the serialization of any cut of a
/// well-formed graph is accepted by the parser, against any root target.
/// Well-formedness includes that every atom name fits the grammar.
pub proof fn lemma_serialized_text_parses(g: GraphView, id: CutId, root: CutId)
    requires
        wf(g),
        g.nodes.dom().contains(id),
    ensures
        parse_spec(serialize_spec(g, id), root) is Ok,
{
    lemma_level_bound(g, id);
    assert forall|i: int| 0 <= i < g.nodes[id].subgraphs.len()
        implies g.nodes.dom().contains(#[trigger] g.nodes[id].subgraphs[i])
            && g.nodes[g.nodes[id].subgraphs[i]].level == g.nodes[id].level + 1 by {}
    let s = serialize_spec(g, id);
    lemma_fold_from_init(root, s);
    let st0 = parse_init(root);
    let names = g.nodes[id].atoms;
    let cs = g.nodes[id].subgraphs;
    let clvl = (g.nodes[id].level + 1) as nat;
    let inner: Seq<char> = if names.len() == 0 {
        serialize_children(g, cs, clvl)
    } else if cs.len() == 0 {
        serialize_atoms(names)
    } else {
        serialize_atoms(names) + seq![','] + serialize_children(g, cs, clvl)
    };
    assert(s == seq!['['] + inner + seq![']']);
    assert(s =~= (seq!['['] + inner) + seq![']']);
    lemma_fold_append(st0, seq!['['], inner);
    lemma_fold_append(st0, seq!['['] + inner, seq![']']);
    assert(seq!['['].drop_last() =~= Seq::<char>::empty());
    assert(parse_fold_from(st0, Seq::<char>::empty()) == Ok::<ParseSt, GraphError>(st0));
    assert(parse_fold_from(st0, seq!['[']) == parse_step(st0, '['));
    let st1 = ParseSt { levels: seq![GraphTarget::Exists(root)], ..st0 };
    assert(parse_step(st0, '[') == Ok::<ParseSt, GraphError>(st1));
    assert(names_valid_at(g, id));
    let stmid = lemma_inner_fold(g, names, cs, clvl, st1);
    assert(seq![']'].drop_last() =~= Seq::<char>::empty());
    assert(parse_fold_from(stmid, Seq::<char>::empty()) == Ok::<ParseSt, GraphError>(stmid));
    assert(parse_fold_from(stmid, seq![']']) == parse_step(stmid, ']'));
    let stf = parse_flush(stmid);
    assert(stf.levels == st1.levels && stf.levels.len() == 1);
    match parse_fold(root, s) {
        Err(_) => {
            assert(false);
        },
        Ok(st_end) => {
            assert(st_end.done);
        },
    }
}

/// Without an opening bracket the parser can never start a graph, so it
/// rejects the text: whitespace is skipped, but any other character outside
/// brackets is an error, and an input that never opens is never `done`.
proof fn lemma_no_bracket_fold(root: CutId, s: Seq<char>, i: int)
    requires
        0 <= i <= s.len(),
        forall|j: int| 0 <= j < s.len() ==> s[j] != '[',
    ensures
        parse_fold(root, s.take(i)) is Err || parse_fold(root, s.take(i)) == Ok::<
            ParseSt,
            GraphError,
        >(parse_init(root)),
    decreases i,
{
    if i > 0 {
        lemma_no_bracket_fold(root, s, i - 1);
        assert(s.take(i).drop_last() =~= s.take(i - 1));
        assert(s.take(i).last() == s[i - 1]);
    } else {
        assert(s.take(0) =~= Seq::<char>::empty());
    }
}

/// The parser rejects any text with no outer bracket, the empty and
/// all-blank texts included.
pub proof fn lemma_parser_rejects_unopened(s: Seq<char>, root: CutId)
    requires
        forall|j: int| 0 <= j < s.len() ==> s[j] != '[',
    ensures
        parse_spec(s, root) is Err,
{
    lemma_no_bracket_fold(root, s, s.len() as int);
    assert(s.take(s.len() as int) =~= s);
}

/// Walks `substr` left to right and emits the batch of actions that builds
/// the described graph inside the cut `root`. The graph itself is only a
/// vantage point of the caller and is never read or changed: parsing
/// depends on the text and the root target alone.
pub fn parse_graph_string_into_actions(_graph: &Graph, substr: &str, root: CutId) -> (r:
    GraphResult<Vec<Action>>)
    ensures
        match r {
            Ok(v) => parse_spec(substr@, root) == Ok::<Seq<ActionV>, GraphError>(
                actions_view(v@),
            ),
            Err(e) => e == GraphError::ParseError && parse_spec(substr@, root) == Err::<
                Seq<ActionV>,
                GraphError,
            >(GraphError::ParseError),
        },
{
    let ghost s = substr@;
    let n = substr.unicode_len();
    let mut levels: Vec<GraphTarget> = Vec::new();
    let mut counter: usize = 0;
    let mut acc = String::new();
    let mut actions: Vec<Action> = Vec::new();
    let mut done = false;
    proof {
        assert(s.take(0) =~= Seq::<char>::empty());
        assert(parse_fold(root, s.take(0)) == Ok::<ParseSt, GraphError>(parse_init(root)));
        assert(parse_init(root) =~= ParseSt {
            root,
            levels: levels@,
            counter,
            acc: acc@,
            actions: actions_view(actions@),
            done,
        });
    }
    for i in 0..n
        invariant
            n == s.len(),
            s == substr@,
            counter <= i,
            parse_fold(root, s.take(i as int)) == Ok::<ParseSt, GraphError>(
                ParseSt {
                    root,
                    levels: levels@,
                    counter,
                    acc: acc@,
                    actions: actions_view(actions@),
                    done,
                },
            ),
    {
        let ghost stpre = ParseSt {
            root,
            levels: levels@,
            counter,
            acc: acc@,
            actions: actions_view(actions@),
            done,
        };
        proof {
            assert(s.take(i + 1).drop_last() =~= s.take(i as int));
            assert(s.take(i + 1).last() == s[i as int]);
        }
        let c = substr.get_char(i);
        if done {
            if !(c == ' ' || c == '\t' || c == '\n' || c == '\r') {
                proof {
                    assert(parse_fold(root, s.take(i + 1)) == Err::<ParseSt, GraphError>(
                        GraphError::ParseError,
                    ));
                    lemma_parse_fold_err(root, s, i + 1);
                }
                return Err(GraphError::ParseError);
            }
        } else if c == '[' {
            if acc.as_str().unicode_len() > 0 {
                proof {
                    assert(parse_fold(root, s.take(i + 1)) == Err::<ParseSt, GraphError>(
                        GraphError::ParseError,
                    ));
                    lemma_parse_fold_err(root, s, i + 1);
                }
                return Err(GraphError::ParseError);
            } else if levels.len() == 0 {
                levels.push(GraphTarget::Exists(root));
                proof {
                    assert(levels@ =~= seq![GraphTarget::Exists(root)]);
                }
            } else {
                counter = counter + 1;
                let top = levels[levels.len() - 1];
                actions.push(
                    Action::AddSubgraph {
                        target: top,
                        new_subgraph: GraphTarget::Future(counter),
                    },
                );
                levels.push(GraphTarget::Future(counter));
                proof {
                    assert(top == stpre.levels.last());
                    assert(actions_view(actions@) =~= stpre.actions.push(
                        ActionV::AddSubgraph {
                            target: stpre.levels.last(),
                            new_subgraph: GraphTarget::Future(counter),
                        },
                    ));
                }
            }
        } else if c == ']' {
            if levels.len() == 0 {
                proof {
                    assert(parse_fold(root, s.take(i + 1)) == Err::<ParseSt, GraphError>(
                        GraphError::ParseError,
                    ));
                    lemma_parse_fold_err(root, s, i + 1);
                }
                return Err(GraphError::ParseError);
            }
            if acc.as_str().unicode_len() > 0 {
                let top = levels[levels.len() - 1];
                let name = acc;
                acc = String::new();
                actions.push(Action::AddAtom { target: top, atom: Atom::new(name) });
                proof {
                    assert(actions_view(actions@) =~= stpre.actions.push(
                        ActionV::AddAtom { target: stpre.levels.last(), atom: stpre.acc },
                    ));
                }
            }
            levels.pop();
            done = levels.len() == 0;
            proof {
                assert(levels@ =~= parse_flush(stpre).levels.drop_last());
            }
        } else if c == ',' {
            if levels.len() == 0 {
                proof {
                    assert(parse_fold(root, s.take(i + 1)) == Err::<ParseSt, GraphError>(
                        GraphError::ParseError,
                    ));
                    lemma_parse_fold_err(root, s, i + 1);
                }
                return Err(GraphError::ParseError);
            }
            if acc.as_str().unicode_len() > 0 {
                let top = levels[levels.len() - 1];
                let name = acc;
                acc = String::new();
                actions.push(Action::AddAtom { target: top, atom: Atom::new(name) });
                proof {
                    assert(actions_view(actions@) =~= stpre.actions.push(
                        ActionV::AddAtom { target: stpre.levels.last(), atom: stpre.acc },
                    ));
                }
            }
        } else if c == ' ' || c == '\t' || c == '\n' || c == '\r' {
        } else {
            if levels.len() == 0 {
                proof {
                    assert(parse_fold(root, s.take(i + 1)) == Err::<ParseSt, GraphError>(
                        GraphError::ParseError,
                    ));
                    lemma_parse_fold_err(root, s, i + 1);
                }
                return Err(GraphError::ParseError);
            }
            acc.push(c);
        }
        proof {
            let stnew = ParseSt {
                root,
                levels: levels@,
                counter,
                acc: acc@,
                actions: actions_view(actions@),
                done,
            };
            assert(parse_step(stpre, s[i as int]) == Ok::<ParseSt, GraphError>(stnew)) by {
                assert(parse_step(stpre, s[i as int]) matches Ok(x) && x =~= stnew);
            }
        }
    }
    proof {
        assert(s.take(n as int) =~= s);
    }
    if done {
        Ok(actions)
    } else {
        Err(GraphError::ParseError)
    }
}

/// What `Graph::try_from_string` builds for a chosen root id: the parse of
/// the text applied to a fresh graph with that root.
pub open spec fn from_string_spec(s: Seq<char>, rt: CutId) -> Result<GraphView, ActionError> {
    match parse_spec(s, rt) {
        Err(pe) => Err(ActionError::GraphError(pe)),
        Ok(acts) => match apply_batch_spec(empty_graph_view(rt), Map::empty(), acts) {
            Ok((gv, b, invs)) => Ok(gv),
            Err((ge, e)) => Err(e),
        },
    }
}

impl Graph {
    /// Builds a graph from its textual form: parses the text against a
    /// fresh graph's root and applies the resulting batch.
    pub fn try_from_string(s: &str) -> (r: Result<Graph, ActionError>)
        ensures
            match r {
                Ok(g2) => g2.well_formed() && from_string_spec(s@, g2@.root) == Ok::<
                    GraphView,
                    ActionError,
                >(g2@),
                Err(e) => exists|rt: CutId| #[trigger] from_string_spec(s@, rt) == Err::<
                    GraphView,
                    ActionError,
                >(e),
            },
    {
        let mut graph = Graph::new();
        let ghost rt = graph@.root;
        let root = graph.root_id();
        let actions = match parse_graph_string_into_actions(&graph, s, root) {
            Ok(v) => v,
            Err(e) => {
                proof {
                    assert(from_string_spec(s@, rt) == Err::<GraphView, ActionError>(
                        ActionError::GraphError(e),
                    ));
                }
                return Err(ActionError::GraphError(e));
            },
        };
        match Action::apply_actions(actions, &mut graph) {
            Ok(_) => {
                proof {
                    lemma_batch_preserves_root(
                        empty_graph_view(rt),
                        Map::empty(),
                        parse_spec(s@, rt)->Ok_0,
                    );
                }
                Ok(graph)
            },
            Err(e) => {
                proof {
                    assert(from_string_spec(s@, rt) == Err::<GraphView, ActionError>(e));
                }
                Err(e)
            },
        }
    }
}

} // verus!
