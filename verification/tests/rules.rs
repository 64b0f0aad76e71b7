use std::collections::VecDeque;

use eg_graph_editor::atom::Atom;
use eg_graph_editor::calculus::action::Action;
use eg_graph_editor::calculus::inference_rule::InferenceRule;
use eg_graph_editor::graph::Graph;

fn print_graph(graph: &Graph) {
    let mut queue = VecDeque::new();

    queue.push_back(graph.root_id());

    while let Some(id) = queue.pop_front() {
        let lvl = graph.level_of(id).unwrap();
        let atoms = graph.atoms_of(id).unwrap();
        let children = graph.subgraphs_of(id).unwrap();

        println!("{}{}: {:?}", "-".repeat(lvl * 2) + ">", id, atoms);

        children.iter().for_each(|k| queue.push_back(*k));
    }
}

#[test]
fn double_cut_draw_test() {
    let graph = Graph::try_from_string("[A,B,C]").unwrap();

    let atom_a = graph
        .atoms_of(graph.root_id())
        .unwrap()
        .iter()
        .next()
        .unwrap()
        .clone();

    let rule = InferenceRule::DoubleCutDraw {
        target: graph.root_id(),
        target_atoms: Vec::from([atom_a]),
        target_subgraphs: Vec::new(),
    };

    let actions = rule.gen_actions_from_rule(&graph).unwrap();

    print_graph(&graph);

    println!("\n{:#?}", actions);
}

#[test]
fn double_cut_erase_test() {
    let mut graph = Graph::try_from_string(
        "[
            A,
            [
                [
                    B,
                    [C, D]
                ],
            ]
        ]",
    ).unwrap();

    let rule = InferenceRule::DoubleCutErase {
        target: *graph.subgraphs_of(graph.root_id()).unwrap().iter().next().unwrap(),
    };

    println!("Original:");
    print_graph(&graph);
    println!();

    let actions = rule.gen_actions_from_rule(&graph).unwrap();

    let actions_rev = Action::apply_actions(actions, &mut graph).unwrap();

    println!("Double cut:");
    print_graph(&graph);
    println!();

    Action::apply_actions(actions_rev, &mut graph).unwrap();

    println!("Reversed:");
    print_graph(&graph);
    println!();
}

#[test]
fn iteration_test() {
    let mut graph = Graph::try_from_string("[A, [B], []]").unwrap();

    let subgraphs: Vec<_> = graph.subgraphs_of(graph.root_id()).unwrap().iter().copied().collect();

    println!("{:?}", subgraphs);

    let rule1 = InferenceRule::Iteration {
        backwards: false,
        parent: graph.root_id(),
        parent_atoms: Vec::from([Atom::new("A".to_string())]),
        parent_subgraphs: Vec::from([subgraphs[0]]),
        target: subgraphs[1],
    };

    let rule2 = InferenceRule::Iteration {
        backwards: true,
        parent: subgraphs[0],
        parent_atoms: Vec::from([Atom::new("B".to_string())]),
        parent_subgraphs: vec![],
        target: graph.root_id(),
    };

    println!("Original:");
    print_graph(&graph);
    println!();

    let actions1 = rule1.gen_actions_from_rule(&graph).unwrap();
    Action::apply_actions(actions1, &mut graph).unwrap();

    println!("Iteration:");
    print_graph(&graph);
    println!();

    let actions2 = rule2.gen_actions_from_rule(&graph).unwrap();
    Action::apply_actions(actions2, &mut graph).unwrap();

    println!("Deiteration:");
    print_graph(&graph);
    println!();
}

fn atom_names_sorted(graph: &Graph, id: u64) -> Vec<String> {
    let mut v: Vec<String> = graph
        .atoms_of(id)
        .unwrap()
        .iter()
        .map(|a| a.name().clone())
        .collect();
    v.sort();
    v
}

/// Structural equality up to cut-id renaming: same atom sets, children
/// compared pairwise in order.
fn same_shape(g1: &Graph, id1: u64, g2: &Graph, id2: u64) -> bool {
    if atom_names_sorted(g1, id1) != atom_names_sorted(g2, id2) {
        return false;
    }
    let c1 = g1.subgraphs_of(id1).unwrap().clone();
    let c2 = g2.subgraphs_of(id2).unwrap().clone();
    if c1.len() != c2.len() {
        return false;
    }
    c1.iter().zip(c2.iter()).all(|(a, b)| same_shape(g1, *a, g2, *b))
}

#[test]
fn double_cut_draw_then_erase_restores_shape() {
    let mut graph = Graph::try_from_string("[A,B,C]").unwrap();
    let original = Graph::try_from_string("[A,B,C]").unwrap();
    let root = graph.root_id();

    let rule = InferenceRule::DoubleCutDraw {
        target: root,
        target_atoms: vec![Atom::new("A".to_string())],
        target_subgraphs: vec![],
    };
    let actions = rule.gen_actions_from_rule(&graph).unwrap();
    Action::apply_actions(actions, &mut graph).unwrap();

    let mut names = atom_names_sorted(&graph, root);
    assert_eq!(names, vec!["B".to_string(), "C".to_string()]);
    let outer = graph.subgraphs_of(root).unwrap()[0];
    let inner = graph.subgraphs_of(outer).unwrap()[0];
    assert_eq!(graph.atoms_of(outer).unwrap().len(), 0);
    names = atom_names_sorted(&graph, inner);
    assert_eq!(names, vec!["A".to_string()]);
    assert_eq!(graph.level_of(outer).unwrap(), 1);
    assert_eq!(graph.level_of(inner).unwrap(), 2);

    let erase = InferenceRule::DoubleCutErase { target: outer };
    let actions = erase.gen_actions_from_rule(&graph).unwrap();
    Action::apply_actions(actions, &mut graph).unwrap();

    assert!(same_shape(&graph, root, &original, original.root_id()));
}

#[test]
fn iteration_then_deiteration_restores_shape() {
    let mut graph = Graph::try_from_string("[A,[B],[]]").unwrap();
    let root = graph.root_id();
    let children: Vec<u64> = graph.subgraphs_of(root).unwrap().clone();
    let first = children[0];
    let second = children[1];

    let rule = InferenceRule::Iteration {
        backwards: false,
        parent: root,
        parent_atoms: vec![Atom::new("A".to_string())],
        parent_subgraphs: vec![first],
        target: second,
    };
    let actions = rule.gen_actions_from_rule(&graph).unwrap();
    Action::apply_actions(actions, &mut graph).unwrap();

    // The second child now holds a copy of the selection: atom A and a cut
    // holding B.
    assert_eq!(atom_names_sorted(&graph, second), vec!["A".to_string()]);
    let copies = graph.subgraphs_of(second).unwrap().clone();
    assert_eq!(copies.len(), 1);
    assert_eq!(atom_names_sorted(&graph, copies[0]), vec!["B".to_string()]);

    // Deiterating the copies out of the second child restores the
    // original shape.
    let original = Graph::try_from_string("[A,[B],[]]").unwrap();
    let rule2 = InferenceRule::Iteration {
        backwards: true,
        parent: second,
        parent_atoms: vec![Atom::new("A".to_string())],
        parent_subgraphs: vec![copies[0]],
        target: root,
    };
    let actions2 = rule2.gen_actions_from_rule(&graph).unwrap();
    Action::apply_actions(actions2, &mut graph).unwrap();
    assert_eq!(atom_names_sorted(&graph, second), Vec::<String>::new());
    assert_eq!(graph.subgraphs_of(second).unwrap().len(), 0);
    assert!(same_shape(&graph, root, &original, original.root_id()));
}

#[test]
fn insertion_rejects_even_level_target() {
    let graph = Graph::try_from_string("[[A]]").unwrap();
    let rule = InferenceRule::Insertion {
        target: graph.root_id(),
        new_content: "[X]".to_string(),
    };
    let r = rule.gen_actions_from_rule(&graph);
    assert!(matches!(
        r,
        Err(eg_graph_editor::calculus::error::ProofError::InvalidApplicationOfRule(_))
    ));
}

#[test]
fn insertion_accepts_odd_level_target() {
    let mut graph = Graph::try_from_string("[[A]]").unwrap();
    let inner = graph.subgraphs_of(graph.root_id()).unwrap()[0];
    let rule = InferenceRule::Insertion { target: inner, new_content: "[X]".to_string() };
    let actions = rule.gen_actions_from_rule(&graph).unwrap();
    Action::apply_actions(actions, &mut graph).unwrap();
    let mut names = atom_names_sorted(&graph, inner);
    names.sort();
    assert_eq!(names, vec!["A".to_string(), "X".to_string()]);
}

#[test]
fn erasure_rejects_odd_level_selection() {
    let graph = Graph::try_from_string("[[A]]").unwrap();
    let inner = graph.subgraphs_of(graph.root_id()).unwrap()[0];
    let rule = InferenceRule::Erasure { target_subgraphs: vec![inner], target_atoms: vec![] };
    let r = rule.gen_actions_from_rule(&graph);
    assert!(matches!(
        r,
        Err(eg_graph_editor::calculus::error::ProofError::InvalidApplicationOfRule(_))
    ));
}

#[test]
fn erasure_deletes_even_level_subtree() {
    let mut graph = Graph::try_from_string("[[A,[B]],C]").unwrap();
    let root = graph.root_id();
    let outer = graph.subgraphs_of(root).unwrap()[0];
    let inner = graph.subgraphs_of(outer).unwrap()[0];
    assert_eq!(graph.level_of(inner).unwrap(), 2);
    let rule = InferenceRule::Erasure {
        target_subgraphs: vec![inner],
        target_atoms: vec![(root, Atom::new("C".to_string()))],
    };
    let actions = rule.gen_actions_from_rule(&graph).unwrap();
    Action::apply_actions(actions, &mut graph).unwrap();
    assert_eq!(graph.subgraphs_of(outer).unwrap().len(), 0);
    assert_eq!(atom_names_sorted(&graph, root), Vec::<String>::new());
    assert_eq!(atom_names_sorted(&graph, outer), vec!["A".to_string()]);
    // B's last use is gone.
    let live: Vec<String> = graph.atoms().iter().map(|a| a.name().clone()).collect();
    assert!(!live.contains(&"B".to_string()));
}
