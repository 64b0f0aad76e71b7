use eg_graph_editor::atom::Atom;
use eg_graph_editor::calculus::action::{Action, GraphTarget};
use eg_graph_editor::calculus::action::error::ActionError;
use eg_graph_editor::codec::{parse_graph_string_into_actions, transform_graph_into_string};
use eg_graph_editor::graph::Graph;
use eg_graph_editor::graph::error::GraphError;

fn names_sorted(graph: &Graph, id: u64) -> Vec<String> {
    let mut v: Vec<String> = graph
        .atoms_of(id)
        .unwrap()
        .iter()
        .map(|a| a.name().clone())
        .collect();
    v.sort();
    v
}

/// A canonical description of the subtree at `id`: sorted atom names and
/// sorted child descriptions, so comparison ignores internal order.
fn shape_key(g: &Graph, id: u64) -> String {
    let atoms = names_sorted(g, id).join(",");
    let mut kids: Vec<String> = g
        .subgraphs_of(id)
        .unwrap()
        .clone()
        .iter()
        .map(|c| shape_key(g, *c))
        .collect();
    kids.sort();
    format!("[{}|{}]", atoms, kids.join(","))
}

fn same_shape(g1: &Graph, id1: u64, g2: &Graph, id2: u64) -> bool {
    shape_key(g1, id1) == shape_key(g2, id2)
}

#[test]
fn build_and_serialize_flat() {
    let graph = Graph::try_from_string("[A,B,C]").unwrap();
    let root = graph.root_id();
    assert_eq!(
        names_sorted(&graph, root),
        vec!["A".to_string(), "B".to_string(), "C".to_string()]
    );
    assert_eq!(graph.subgraphs_of(root).unwrap().len(), 0);

    let text = transform_graph_into_string(&graph, root);
    let reparsed = Graph::try_from_string(&text).unwrap();
    assert!(same_shape(&graph, root, &reparsed, reparsed.root_id()));
}

#[test]
fn build_nested_levels() {
    let graph = Graph::try_from_string("[A,[B,[C,D]]]").unwrap();
    let root = graph.root_id();
    assert_eq!(names_sorted(&graph, root), vec!["A".to_string()]);
    let kids = graph.subgraphs_of(root).unwrap().clone();
    assert_eq!(kids.len(), 1);
    assert_eq!(names_sorted(&graph, kids[0]), vec!["B".to_string()]);
    let grandkids = graph.subgraphs_of(kids[0]).unwrap().clone();
    assert_eq!(grandkids.len(), 1);
    assert_eq!(
        names_sorted(&graph, grandkids[0]),
        vec!["C".to_string(), "D".to_string()]
    );
    assert_eq!(graph.level_of(root).unwrap(), 0);
    assert_eq!(graph.level_of(kids[0]).unwrap(), 1);
    assert_eq!(graph.level_of(grandkids[0]).unwrap(), 2);

    let text = transform_graph_into_string(&graph, root);
    let reparsed = Graph::try_from_string(&text).unwrap();
    assert!(same_shape(&graph, root, &reparsed, reparsed.root_id()));
}

#[test]
fn serialize_exact_strings() {
    let g = Graph::try_from_string("[]").unwrap();
    assert_eq!(transform_graph_into_string(&g, g.root_id()), "[]");
    let g = Graph::try_from_string("[A]").unwrap();
    assert_eq!(transform_graph_into_string(&g, g.root_id()), "[A]");
    let g = Graph::try_from_string("[A,[B],C]").unwrap();
    // Atoms come first, then child cuts, in insertion order.
    assert_eq!(transform_graph_into_string(&g, g.root_id()), "[A,C,[B]]");
    let g = Graph::try_from_string("[[ ],[]]").unwrap();
    assert_eq!(transform_graph_into_string(&g, g.root_id()), "[[],[]]");
}

#[test]
fn parser_rejects_malformed_inputs() {
    for bad in [
        "",
        "   ",
        "A,B",
        "[A",
        "A]",
        "[A]]",
        "[A][B]",
        "[A[B]]",
        "x[A]",
        "[A] junk",
        "]",
        "[[A]",
    ] {
        assert!(
            matches!(Graph::try_from_string(bad), Err(ActionError::GraphError(GraphError::ParseError))),
            "expected a parse error for {:?}",
            bad
        );
    }
}

#[test]
fn parser_accepts_whitespace_outside_atoms() {
    let graph = Graph::try_from_string("  [ A , [ B ] ]  ").unwrap();
    let root = graph.root_id();
    assert_eq!(names_sorted(&graph, root), vec!["A".to_string()]);
    let kids = graph.subgraphs_of(root).unwrap().clone();
    assert_eq!(kids.len(), 1);
    assert_eq!(names_sorted(&graph, kids[0]), vec!["B".to_string()]);
}

#[test]
fn parser_leaves_graph_untouched() {
    let graph = Graph::try_from_string("[A,[B]]").unwrap();
    let before = transform_graph_into_string(&graph, graph.root_id());
    let _ = parse_graph_string_into_actions(&graph, "[[[", graph.root_id());
    let _ = parse_graph_string_into_actions(&graph, "[X,[Y]]", graph.root_id());
    let after = transform_graph_into_string(&graph, graph.root_id());
    assert_eq!(before, after);
}

#[test]
fn insert_atom_is_a_set_add() {
    let mut graph = Graph::new();
    let root = graph.root_id();
    graph.insert_atom(root, Atom::new("P".to_string())).unwrap();
    graph.insert_atom(root, Atom::new("P".to_string())).unwrap();
    assert_eq!(names_sorted(&graph, root), vec!["P".to_string()]);
    // One removal frees the name: the usage count was one, not two.
    let freed = graph
        .remove_atom_from_subgraph(root, &Atom::new("P".to_string()))
        .unwrap();
    assert_eq!(freed.map(|a| a.name().clone()), Some("P".to_string()));
    assert_eq!(graph.atoms().len(), 0);
}

#[test]
fn usage_counts_span_cuts() {
    let mut graph = Graph::try_from_string("[P,[P]]").unwrap();
    let root = graph.root_id();
    let inner = graph.subgraphs_of(root).unwrap()[0];
    let live: Vec<String> = graph.atoms().iter().map(|a| a.name().clone()).collect();
    assert_eq!(live, vec!["P".to_string()]);
    // Removing one of two uses keeps the name live.
    let freed = graph
        .remove_atom_from_subgraph(root, &Atom::new("P".to_string()))
        .unwrap();
    assert!(freed.is_none());
    assert_eq!(graph.atoms().len(), 1);
    // Removing the last use frees it.
    let freed = graph
        .remove_atom_from_subgraph(inner, &Atom::new("P".to_string()))
        .unwrap();
    assert_eq!(freed.map(|a| a.name().clone()), Some("P".to_string()));
    assert_eq!(graph.atoms().len(), 0);
}

#[test]
fn undo_single_action_batch() {
    let mut graph = Graph::try_from_string("[]").unwrap();
    let root = graph.root_id();
    let batch = vec![Action::AddAtom {
        target: GraphTarget::Exists(root),
        atom: Atom::new("P".to_string()),
    }];
    let inverse = Action::apply_actions(batch, &mut graph).unwrap();
    assert_eq!(names_sorted(&graph, root), vec!["P".to_string()]);
    Action::apply_actions(inverse, &mut graph).unwrap();
    assert_eq!(names_sorted(&graph, root), Vec::<String>::new());
    assert_eq!(graph.atoms().len(), 0);
}

#[test]
fn undo_parsed_batch() {
    let mut graph = Graph::try_from_string("[]").unwrap();
    let root = graph.root_id();
    let empty = Graph::try_from_string("[]").unwrap();
    let actions = parse_graph_string_into_actions(&graph, "[A,[B,[C]]]", root).unwrap();
    let inverse = Action::apply_actions(actions, &mut graph).unwrap();
    assert_eq!(names_sorted(&graph, root), vec!["A".to_string()]);
    Action::apply_actions(inverse, &mut graph).unwrap();
    assert!(same_shape(&graph, root, &empty, empty.root_id()));
    assert_eq!(graph.atoms().len(), 0);
}

#[test]
fn move_subgraph_relevels_subtree() {
    let mut graph = Graph::try_from_string("[[A,[B]],[]]").unwrap();
    let root = graph.root_id();
    let kids = graph.subgraphs_of(root).unwrap().clone();
    let first = kids[0];
    let second = kids[1];
    let nested = graph.subgraphs_of(first).unwrap()[0];
    assert_eq!(graph.level_of(nested).unwrap(), 2);

    graph.move_subgraph(first, second).unwrap();
    assert_eq!(graph.parent_of(first).unwrap(), second);
    assert_eq!(graph.level_of(first).unwrap(), 2);
    assert_eq!(graph.level_of(nested).unwrap(), 3);
    assert_eq!(graph.subgraphs_of(root).unwrap().clone(), vec![second]);
}

#[test]
fn move_subgraph_rejects_cycles() {
    let mut graph = Graph::try_from_string("[[[]]]").unwrap();
    let root = graph.root_id();
    let outer = graph.subgraphs_of(root).unwrap()[0];
    let inner = graph.subgraphs_of(outer).unwrap()[0];
    assert_eq!(
        graph.move_subgraph(outer, inner),
        Err(GraphError::InvalidSubgraphTargetError(inner))
    );
    assert_eq!(
        graph.move_subgraph(outer, outer),
        Err(GraphError::InvalidSubgraphTargetError(outer))
    );
    assert_eq!(
        graph.move_subgraph(root, inner),
        Err(GraphError::InvalidRootGraphTargetError)
    );
}

#[test]
fn remove_subgraph_errors() {
    let mut graph = Graph::try_from_string("[[A]]").unwrap();
    let root = graph.root_id();
    let inner = graph.subgraphs_of(root).unwrap()[0];
    assert_eq!(
        graph.remove_subgraph(root, false),
        Err(GraphError::InvalidRootGraphTargetError)
    );
    assert_eq!(
        graph.remove_subgraph(9999, false),
        Err(GraphError::InvalidSubgraphTargetError(9999))
    );
    assert_eq!(
        graph.remove_subgraph(inner, false),
        Err(GraphError::NotEmptyError(inner))
    );
    graph.remove_subgraph(inner, true).unwrap();
    assert_eq!(graph.subgraphs_of(root).unwrap().len(), 0);
    assert_eq!(graph.atoms().len(), 0);
}

#[test]
fn read_operations_reject_unknown_cuts() {
    let graph = Graph::new();
    assert!(matches!(
        graph.atoms_of(12345),
        Err(GraphError::InvalidSubgraphTargetError(12345))
    ));
    assert!(matches!(
        graph.parent_of(graph.root_id()),
        Err(GraphError::InvalidSubgraphTargetError(_))
    ));
    assert!(matches!(
        graph.level_of(12345),
        Err(GraphError::InvalidSubgraphTargetError(12345))
    ));
}

#[test]
fn batch_rejects_unbound_future() {
    let mut graph = Graph::new();
    let batch = vec![Action::AddAtom {
        target: GraphTarget::Future(5),
        atom: Atom::new("P".to_string()),
    }];
    assert!(matches!(
        Action::apply_actions(batch, &mut graph),
        Err(ActionError::UndefinedFutureGraph(5))
    ));
}

#[test]
fn batch_rejects_duplicate_id() {
    let mut graph = Graph::new();
    let root = graph.root_id();
    let batch = vec![Action::AddSubgraph {
        target: GraphTarget::Exists(root),
        new_subgraph: GraphTarget::Exists(root),
    }];
    let r = Action::apply_actions(batch, &mut graph);
    assert!(matches!(r, Err(ActionError::SubgraphIdAlreadyExists(x)) if x == root));
}

#[test]
fn batch_rejects_deleting_nonempty_cut() {
    let mut graph = Graph::try_from_string("[[A]]").unwrap();
    let inner = graph.subgraphs_of(graph.root_id()).unwrap()[0];
    let batch = vec![Action::DeleteSubgraph { target: GraphTarget::Exists(inner) }];
    let r = Action::apply_actions(batch, &mut graph);
    assert!(matches!(r, Err(ActionError::GraphError(GraphError::NotEmptyError(x))) if x == inner));
}

#[test]
fn is_ancestor_walks_parent_chain() {
    let graph = Graph::try_from_string("[[[]]]").unwrap();
    let root = graph.root_id();
    let outer = graph.subgraphs_of(root).unwrap()[0];
    let inner = graph.subgraphs_of(outer).unwrap()[0];
    assert!(graph.is_ancestor(root, inner).unwrap());
    assert!(graph.is_ancestor(outer, inner).unwrap());
    assert!(!graph.is_ancestor(inner, root).unwrap());
    assert!(!graph.is_ancestor(root, root).unwrap());
}

#[test]
fn atom_accessors() {
    let a = Atom::new("hello".to_string());
    assert_eq!(a.name().as_str(), "hello");
    let b = a.clone();
    assert!(a == b);
    assert!(Atom::new("x".to_string()) != Atom::new("y".to_string()));
}

/// Walks the parent chain from `id` up to the root, counting steps.
fn depth_by_walking(graph: &Graph, id: u64) -> usize {
    let mut cur = id;
    let mut depth = 0;
    while cur != graph.root_id() {
        cur = graph.parent_of(cur).unwrap();
        depth += 1;
    }
    depth
}

fn collect_ids(graph: &Graph, id: u64, out: &mut Vec<u64>) {
    out.push(id);
    for c in graph.subgraphs_of(id).unwrap().clone() {
        collect_ids(graph, c, out);
    }
}

#[test]
fn level_matches_parent_chain_depth() {
    let mut graph = Graph::try_from_string("[A,[B,[C],[D,[E]]],[]]").unwrap();
    let root = graph.root_id();
    let mut ids = Vec::new();
    collect_ids(&graph, root, &mut ids);
    for id in &ids {
        assert_eq!(graph.level_of(*id).unwrap(), depth_by_walking(&graph, *id));
    }
    // Also after a move re-levels a subtree.
    let kids = graph.subgraphs_of(root).unwrap().clone();
    graph.move_subgraph(kids[0], kids[1]).unwrap();
    let mut ids = Vec::new();
    collect_ids(&graph, root, &mut ids);
    for id in &ids {
        assert_eq!(graph.level_of(*id).unwrap(), depth_by_walking(&graph, *id));
    }
}

#[test]
fn tree_invariants_hold_after_operations() {
    let mut graph = Graph::try_from_string("[A,[B],[C,[D]]]").unwrap();
    let root = graph.root_id();
    let kids = graph.subgraphs_of(root).unwrap().clone();
    graph.insert_atom(kids[0], Atom::new("E".to_string())).unwrap();
    let fresh = graph.insert_subgraph(kids[1]).unwrap();
    graph.move_subgraph(kids[0], fresh).unwrap();
    graph
        .remove_atom_from_subgraph(root, &Atom::new("A".to_string()))
        .unwrap();

    // Every cut is its children's recorded parent, one level above them;
    // the root is at level zero with no parent.
    assert_eq!(graph.level_of(root).unwrap(), 0);
    assert!(graph.parent_of(root).is_err());
    let mut ids = Vec::new();
    collect_ids(&graph, root, &mut ids);
    for id in &ids {
        for c in graph.subgraphs_of(*id).unwrap().clone() {
            assert_eq!(graph.parent_of(c).unwrap(), *id);
            assert_eq!(
                graph.level_of(c).unwrap(),
                graph.level_of(*id).unwrap() + 1
            );
        }
    }
    // No id appears as a child of two different parents.
    let mut seen = Vec::new();
    for id in &ids {
        for c in graph.subgraphs_of(*id).unwrap().clone() {
            assert!(!seen.contains(&c));
            seen.push(c);
        }
    }
}

#[test]
fn undo_move_and_delete_batch() {
    let mut graph = Graph::try_from_string("[[A],[B]]").unwrap();
    let original = Graph::try_from_string("[[A],[B]]").unwrap();
    let root = graph.root_id();
    let kids = graph.subgraphs_of(root).unwrap().clone();
    let batch = vec![
        Action::MoveSubgraph {
            target: GraphTarget::Exists(kids[0]),
            dest: GraphTarget::Exists(kids[1]),
        },
        Action::DeleteAtom {
            target: GraphTarget::Exists(kids[1]),
            atom: Atom::new("B".to_string()),
        },
    ];
    let inverse = Action::apply_actions(batch, &mut graph).unwrap();
    assert_eq!(graph.subgraphs_of(root).unwrap().clone(), vec![kids[1]]);
    assert_eq!(graph.level_of(kids[0]).unwrap(), 2);
    Action::apply_actions(inverse, &mut graph).unwrap();
    assert!(same_shape(&graph, root, &original, original.root_id()));
    assert_eq!(graph.level_of(kids[0]).unwrap(), 1);
}

#[test]
fn insert_atom_rejects_invalid_names() {
    let mut graph = Graph::new();
    let root = graph.root_id();
    for bad in ["", "B,C", "x]y", "[z", "a b", "a\tb"] {
        assert_eq!(
            graph.insert_atom(root, Atom::new(bad.to_string())),
            Err(GraphError::ParseError),
            "expected a rejected atom name for {:?}",
            bad
        );
    }
    assert_eq!(graph.atoms().len(), 0);
    graph.insert_atom(root, Atom::new("fine".to_string())).unwrap();
    assert_eq!(names_sorted(&graph, root), vec!["fine".to_string()]);
}

#[test]
fn batch_rejects_invalid_atom_name() {
    let mut graph = Graph::new();
    let root = graph.root_id();
    let batch = vec![Action::AddAtom {
        target: GraphTarget::Exists(root),
        atom: Atom::new("B,C".to_string()),
    }];
    assert!(matches!(
        Action::apply_actions(batch, &mut graph),
        Err(ActionError::GraphError(GraphError::ParseError))
    ));
}

#[test]
fn batch_rejects_future_slot_rebinding() {
    let mut graph = Graph::new();
    let root = graph.root_id();
    let batch = vec![
        Action::AddSubgraph {
            target: GraphTarget::Exists(root),
            new_subgraph: GraphTarget::Future(0),
        },
        Action::AddSubgraph {
            target: GraphTarget::Exists(root),
            new_subgraph: GraphTarget::Future(0),
        },
    ];
    assert!(matches!(
        Action::apply_actions(batch, &mut graph),
        Err(ActionError::UndefinedFutureGraph(0))
    ));
    // The first allocation of the failing batch is kept, as the contract
    // states for a mid-batch failure.
    assert_eq!(graph.subgraphs_of(root).unwrap().len(), 1);
}

#[test]
fn atoms_order_by_name() {
    let mut v = vec![
        Atom::new("c".to_string()),
        Atom::new("a".to_string()),
        Atom::new("b".to_string()),
    ];
    v.sort();
    let names: Vec<String> = v.iter().map(|a| a.name().clone()).collect();
    assert_eq!(names, vec!["a".to_string(), "b".to_string(), "c".to_string()]);
    assert!(Atom::new("a".to_string()) < Atom::new("b".to_string()));
}
