//! The graph model: a rooted tree of cuts.
//!
//! A [`Graph`] is a tree of [`Subgraph`] records keyed by opaque [`CutId`]s,
//! with a designated root at depth 0, a parent map, and a global usage count
//! per atom name. The well-formedness predicate [`wf`] states the tree
//! invariants; every public operation preserves it.

pub mod error;
pub mod subgraph;

use vstd::prelude::*;
use std::collections::HashMap;
use crate::atom::{Atom, valid_atom_name};
use self::error::{GraphError, GraphResult};
use self::subgraph::{Subgraph, SubgraphView, atom_names};

verus! {

broadcast use vstd::std_specs::hash::group_hash_axioms;

/// An identifier of one cut, unique within a graph for the lifetime of the
/// cut. Its concrete shape is not part of the contract.
pub type CutId = u64;

/// A rooted tree of cuts. Atom names are reference-counted across the tree;
/// the root is created with the graph and never removed.
pub struct Graph {
    root_id: CutId,
    known_atoms: Vec<(Atom, usize)>,
    subgraphs: HashMap<CutId, Subgraph>,
    subgraph_parents: HashMap<CutId, CutId>,
}

/// A graph as seen by specifications: the root id, the cuts by id, the parent
/// of every non-root cut, and how many cuts hold each live atom name.
#[verifier::ext_equal]
pub ghost struct GraphView {
    pub root: CutId,
    pub nodes: Map<CutId, SubgraphView>,
    pub parent: Map<CutId, CutId>,
    pub usage: Map<Seq<char>, nat>,
}

/// The view of a freshly created graph: one empty root cut, nothing else.
pub open spec fn empty_graph_view(root: CutId) -> GraphView {
    GraphView {
        root,
        nodes: Map::empty().insert(
            root,
            SubgraphView { level: 0, atoms: Seq::empty(), subgraphs: Seq::empty() },
        ),
        parent: Map::empty(),
        usage: Map::empty(),
    }
}

/// The usage map that a sequence of (atom, count) entries stands for.
pub open spec fn usage_map_of(s: Seq<(Atom, usize)>) -> Map<Seq<char>, nat>
    decreases s.len(),
{
    if s.len() == 0 {
        Map::empty()
    } else {
        usage_map_of(s.drop_last()).insert(s.last().0@, s.last().1 as nat)
    }
}

/// Whether every atom name anywhere in the node map is a usable atom name:
/// non-empty, free of whitespace and of the three delimiter characters.
pub open spec fn names_ok_in(nodes: Map<CutId, SubgraphView>) -> bool {
    forall|id: CutId, i: int|
        nodes.contains_key(id) && 0 <= i < nodes[id].atoms.len() ==> valid_atom_name(
            #[trigger] nodes[id].atoms[i],
        )
}

/// Whether every atom name anywhere in the graph is a usable atom name.
pub open spec fn names_ok(g: GraphView) -> bool {
    names_ok_in(g.nodes)
}

/// The cuts of a node map that directly hold the atom name `a`.
pub open spec fn cuts_with_in(nodes: Map<CutId, SubgraphView>, a: Seq<char>) -> Set<CutId> {
    nodes.dom().filter(|id: CutId| nodes[id].atoms.contains(a))
}

/// The set of cuts of `g` that directly hold the atom name `a`.
pub open spec fn cuts_with(g: GraphView, a: Seq<char>) -> Set<CutId> {
    cuts_with_in(g.nodes, a)
}

/// The usage clauses of the tree invariants, over a bare node map: each key
/// of `usage` counts the cuts holding it, and a missing key is held nowhere.
pub open spec fn usage_wf(nodes: Map<CutId, SubgraphView>, usage: Map<Seq<char>, nat>) -> bool {
    &&& forall|a: Seq<char>| #[trigger] usage.contains_key(a)
        ==> usage[a] == cuts_with_in(nodes, a).len() && usage[a] >= 1
    &&& forall|a: Seq<char>| !(#[trigger] usage.contains_key(a))
        ==> cuts_with_in(nodes, a) =~= Set::<CutId>::empty()
}

/// Like [`usage_wf`], except that each name in `extra` is counted once more
/// than the node map shows: the state in the middle of dropping a removed
/// cut's atoms.
pub open spec fn usage_wf_except(
    nodes: Map<CutId, SubgraphView>,
    usage: Map<Seq<char>, nat>,
    extra: Seq<Seq<char>>,
) -> bool {
    &&& forall|a: Seq<char>| #[trigger] usage.contains_key(a)
        ==> usage[a] == cuts_with_in(nodes, a).len() + (if extra.contains(a) {
            1nat
        } else {
            0nat
        }) && usage[a] >= 1
    &&& forall|a: Seq<char>| !(#[trigger] usage.contains_key(a))
        ==> cuts_with_in(nodes, a) =~= Set::<CutId>::empty() && !extra.contains(a)
}

/// The tree invariants. They hold after every public operation:
/// the root is a cut at level 0 with no parent; every non-root cut has
/// exactly one parent and is listed among that parent's children; children
/// point back to their parent; each cut sits one level below its parent;
/// atom and child lists are free of duplicates; and the usage count of each
/// atom name equals the number of cuts that hold it, with a name present in
/// the usage map exactly when that number is at least one. Every atom name
/// held anywhere fits the textual grammar's `atom` token.
pub open spec fn wf(g: GraphView) -> bool {
    &&& names_ok(g)
    &&& g.nodes.dom().finite()
    &&& g.nodes.contains_key(g.root)
    &&& g.nodes[g.root].level == 0
    &&& !g.parent.contains_key(g.root)
    &&& forall|id: CutId| #[trigger] g.parent.contains_key(id)
        ==> g.nodes.contains_key(id) && id != g.root
    &&& forall|id: CutId| g.nodes.contains_key(id) && id != g.root
        ==> #[trigger] g.parent.contains_key(id)
    &&& forall|id: CutId| #[trigger] g.parent.contains_key(id) ==> {
        &&& g.nodes.contains_key(g.parent[id])
        &&& g.nodes[g.parent[id]].subgraphs.contains(id)
        &&& g.nodes[id].level == g.nodes[g.parent[id]].level + 1
    }
    &&& forall|p: CutId, i: int|
        g.nodes.contains_key(p) && 0 <= i < g.nodes[p].subgraphs.len()
        ==> {
            let c = #[trigger] g.nodes[p].subgraphs[i];
            &&& g.nodes.contains_key(c)
            &&& c != g.root
            &&& g.parent.contains_key(c)
            &&& g.parent[c] == p
        }
    &&& forall|id: CutId| #[trigger] g.nodes.contains_key(id) ==> {
        &&& g.nodes[id].subgraphs.no_duplicates()
        &&& g.nodes[id].atoms.no_duplicates()
    }
    &&& forall|a: Seq<char>| #[trigger] g.usage.contains_key(a)
        ==> g.usage[a] == cuts_with(g, a).len() && g.usage[a] >= 1
    &&& forall|a: Seq<char>| !(#[trigger] g.usage.contains_key(a))
        ==> cuts_with(g, a) =~= Set::<CutId>::empty()
}

impl View for Graph {
    type V = GraphView;

    closed spec fn view(&self) -> GraphView {
        GraphView {
            root: self.root_id,
            nodes: Map::new(
                |id: CutId| self.subgraphs@.contains_key(id),
                |id: CutId| self.subgraphs@[id]@,
            ),
            parent: self.subgraph_parents@,
            usage: usage_map_of(self.known_atoms@),
        }
    }
}

impl Graph {
    /// The representation invariant: view well-formedness plus facts about
    /// the usage vector that the view abstracts away.
    #[verifier::opaque]
    spec fn rep_inv(&self) -> bool {
        &&& wf(self@)
        &&& atom_names(self.known_atoms@.map_values(|e: (Atom, usize)| e.0)).no_duplicates()
        &&& forall|i: int| 0 <= i < self.known_atoms@.len()
            ==> (#[trigger] self.known_atoms@[i]).1 >= 1
    }

    /// Whether this graph satisfies the tree invariants. Established by the
    /// constructors and preserved by every operation.
    pub closed spec fn well_formed(&self) -> bool {
        self.rep_inv()
    }

    /// A well-formed graph's view satisfies [`wf`].
    pub broadcast proof fn lemma_well_formed_wf(&self)
        requires
            #[trigger] self.well_formed(),
        ensures
            wf(self@),
    {
        reveal(Graph::rep_inv);
    }

    /// A fresh graph: a single empty root cut, no atoms.
    pub fn new() -> (r: Self)
        ensures
            r.well_formed(),
            r@ == empty_graph_view(r@.root),
            r@.nodes.dom() =~= set![r@.root],
            r@.nodes[r@.root].atoms == Seq::<Seq<char>>::empty(),
            r@.nodes[r@.root].subgraphs == Seq::<CutId>::empty(),
            r@.nodes[r@.root].level == 0,
            r@.parent =~= Map::<CutId, CutId>::empty(),
            r@.usage =~= Map::<Seq<char>, nat>::empty(),
    {
        let root_id: CutId = 0;
        let mut subgraphs: HashMap<CutId, Subgraph> = HashMap::new();
        subgraphs.insert(root_id, Subgraph::new(0));
        let r = Graph {
            root_id,
            known_atoms: Vec::new(),
            subgraphs,
            subgraph_parents: HashMap::new(),
        };
        proof {
            assert(r@ =~~= empty_graph_view(r@.root));
            assert(r@.nodes.dom() =~= set![0u64]);
            assert(r@.usage =~= Map::<Seq<char>, nat>::empty());
            assert forall|a: Seq<char>| !(#[trigger] r@.usage.contains_key(a))
                implies cuts_with(r@, a) =~= Set::<CutId>::empty() by {
                assert(r@.nodes[0u64].atoms.len() == 0);
                assert forall|id: CutId| !(#[trigger] cuts_with(r@, a).contains(id)) by {
                    if r@.nodes.dom().contains(id) {
                        assert(id == 0u64);
                        assert(!r@.nodes[id].atoms.contains(a));
                    }
                }
            }
            assert(atom_names(r.known_atoms@.map_values(|e: (Atom, usize)| e.0)).no_duplicates());
            assert(wf(r@));
            reveal(Graph::rep_inv);
        }
        r
    }

    /// The id of the root cut.
    pub fn root_id(&self) -> (r: CutId)
        ensures
            r == self@.root,
    {
        self.root_id
    }

    /// The atoms directly held by the cut `target`.
    pub fn atoms_of(&self, target: CutId) -> (r: GraphResult<&Vec<Atom>>)
        ensures
            match r {
                Ok(v) => self@.nodes.contains_key(target) && atom_names(v@) == self@.nodes[target].atoms,
                Err(e) => !self@.nodes.contains_key(target)
                    && e == GraphError::InvalidSubgraphTargetError(target),
            },
    {
        match self.subgraphs.get(&target) {
            Some(node) => Ok(node.atoms()),
            None => Err(GraphError::InvalidSubgraphTargetError(target)),
        }
    }

    /// The ids of the direct child cuts of `target`.
    pub fn subgraphs_of(&self, target: CutId) -> (r: GraphResult<&Vec<CutId>>)
        ensures
            match r {
                Ok(v) => self@.nodes.contains_key(target) && v@ == self@.nodes[target].subgraphs,
                Err(e) => !self@.nodes.contains_key(target)
                    && e == GraphError::InvalidSubgraphTargetError(target),
            },
    {
        match self.subgraphs.get(&target) {
            Some(node) => Ok(node.subgraphs()),
            None => Err(GraphError::InvalidSubgraphTargetError(target)),
        }
    }

    /// The id of the parent of `target`. Fails when `target` is absent, and
    /// also when `target` is the root (callers tell the two apart by
    /// comparing `target` with the root id).
    pub fn parent_of(&self, target: CutId) -> (r: GraphResult<CutId>)
        ensures
            match r {
                Ok(p) => self@.parent.contains_key(target) && p == self@.parent[target],
                Err(e) => !self@.parent.contains_key(target)
                    && e == GraphError::InvalidSubgraphTargetError(target),
            },
    {
        match self.subgraph_parents.get(&target) {
            Some(p) => Ok(*p),
            None => Err(GraphError::InvalidSubgraphTargetError(target)),
        }
    }

    /// The depth of the cut `target`; the root is at depth 0.
    pub fn level_of(&self, target: CutId) -> (r: GraphResult<usize>)
        ensures
            match r {
                Ok(l) => self@.nodes.contains_key(target) && l == self@.nodes[target].level,
                Err(e) => !self@.nodes.contains_key(target)
                    && e == GraphError::InvalidSubgraphTargetError(target),
            },
    {
        match self.subgraphs.get(&target) {
            Some(node) => Ok(node.level()),
            None => Err(GraphError::InvalidSubgraphTargetError(target)),
        }
    }

    /// The names that are live somewhere in the graph: exactly the keys of
    /// the usage map, each once.
    pub fn atoms(&self) -> (r: Vec<Atom>)
        requires
            self.well_formed(),
        ensures
            atom_names(r@).no_duplicates(),
            atom_names(r@).to_set() =~= self@.usage.dom(),
    {
        proof {
            reveal(Graph::rep_inv);
        }
        let mut r: Vec<Atom> = Vec::new();
        let n = self.known_atoms.len();
        let ghost names = atom_names(self.known_atoms@.map_values(|e: (Atom, usize)| e.0));
        for i in 0..n
            invariant
                n == self.known_atoms.len(),
                r@.len() == i,
                forall|j: int| 0 <= j < i ==> (#[trigger] r@[j])@ == self.known_atoms@[j].0@,
        {
            r.push(self.known_atoms[i].0.clone());
        }
        proof {
            assert forall|j: int| 0 <= j < names.len()
                implies atom_names(r@)[j] == names[j] by {
                assert(r@[j]@ == self.known_atoms@[j].0@);
            }
            assert(atom_names(r@) =~= names);
            lemma_usage_map_membership(self.known_atoms@);
            assert forall|a: Seq<char>| atom_names(r@).to_set().contains(a)
                implies self@.usage.dom().contains(a) by {
                let i = choose|i: int| 0 <= i < names.len() && names[i] == a;
                assert(self.known_atoms@[i].0@ == a);
            }
            assert forall|a: Seq<char>| self@.usage.dom().contains(a)
                implies atom_names(r@).to_set().contains(a) by {
                let i = choose|i: int|
                    0 <= i < self.known_atoms@.len() && self.known_atoms@[i].0@ == a;
                assert(names[i] == a);
            }
        }
        r
    }

    /// Adds `atom` to the cut `target`. A set add: a second addition of the
    /// same name to one cut is a no-op, also on the usage count. A name
    /// that does not fit the textual grammar's `atom` token is rejected, so
    /// that every graph stays serializable.
    pub fn insert_atom(&mut self, target: CutId, atom: Atom) -> (r: GraphResult<()>)
        requires
            old(self).well_formed(),
        ensures
            final(self).well_formed(),
            match r {
                Ok(()) => old(self)@.nodes.contains_key(target) && valid_atom_name(atom@)
                    && final(self)@ == insert_atom_spec(old(self)@, target, atom@),
                Err(e) => {
                    &&& final(self)@ == old(self)@
                    &&& if !old(self)@.nodes.contains_key(target) {
                        e == GraphError::InvalidSubgraphTargetError(target)
                    } else {
                        !valid_atom_name(atom@) && e == GraphError::ParseError
                    }
                },
            },
    {
        proof {
            reveal(Graph::rep_inv);
        }
        let ghost g = old(self)@;
        if !self.subgraphs.contains_key(&target) {
            return Err(GraphError::InvalidSubgraphTargetError(target));
        }
        if !atom.is_valid_name() {
            return Err(GraphError::ParseError);
        }
        let total = self.subgraphs.len();
        let mut node = self.subgraphs.remove(&target).unwrap();
        if node.contains_atom(&atom) {
            self.subgraphs.insert(target, node);
            proof {
                assert(self@ =~~= g);
                assert(insert_atom_spec(g, target, atom@) == g);
            }
            Ok(())
        } else {
            node.atoms.push(atom.clone());
            self.subgraphs.insert(target, node);
            proof {
                // The usage count of this name is below the number of cuts,
                // so raising it by one cannot overflow.
                assert(g.nodes.dom() =~= old(self).subgraphs@.dom());
                assert(total == g.nodes.dom().len());
                assert(!cuts_with(g, atom@).contains(target));
                assert(cuts_with(g, atom@).subset_of(g.nodes.dom().remove(target)));
                vstd::set_lib::lemma_len_subset(
                    cuts_with(g, atom@),
                    g.nodes.dom().remove(target),
                );
                assert(cuts_with(g, atom@).len() <= total - 1);
                lemma_usage_map_membership(old(self).known_atoms@);
                assert forall|i: int|
                    0 <= i < self.known_atoms@.len() && (#[trigger] self.known_atoms@[i]).0@
                        == atom@ implies self.known_atoms@[i].1 < usize::MAX by {
                    lemma_usage_map_value(self.known_atoms@, i);
                    assert(g.usage.contains_key(atom@));
                    assert(g.usage[atom@] == cuts_with(g, atom@).len());
                }
            }
            bump_usage(&mut self.known_atoms, &atom);
            proof {
                let exp = insert_atom_spec(g, target, atom@);
                assert(atom_names(self.subgraphs@[target].atoms@) =~= g.nodes[target].atoms.push(
                    atom@,
                ));
                assert(self@.nodes =~~= exp.nodes);
                assert(self@ =~~= exp);
                lemma_insert_atom_spec_wf(g, target, atom@);
            }
            Ok(())
        }
    }

    /// The smallest id that no cut of this graph carries.
    pub(crate) fn gen_unique_unused_key(&self) -> (r: CutId)
        requires
            self.well_formed(),
        ensures
            r == fresh_id(self@),
            is_fresh_id(self@, r),
    {
        proof {
            reveal(Graph::rep_inv);
            assert(self@.nodes.dom() =~= self.subgraphs@.dom());
        }
        let total = self.subgraphs.len();
        let mut i: CutId = 0;
        loop
            invariant
                self.well_formed(),
                total == self.subgraphs@.dom().len(),
                i <= total as CutId,
                forall|y: CutId| y < i ==> self@.nodes.dom().contains(y),
            decreases total as int - i as int,
        {
            proof {
                reveal(Graph::rep_inv);
                assert(self@.nodes.dom() =~= self.subgraphs@.dom());
            }
            if !self.subgraphs.contains_key(&i) {
                proof {
                    lemma_fresh_id_unique(self@, i);
                }
                return i;
            }
            proof {
                if i == total as CutId {
                    lemma_prefix_len(self@.nodes.dom(), i);
                    assert(self@.nodes.dom().contains(i));
                    let t = self@.nodes.dom().remove(i);
                    assert(forall|y: CutId| y < i ==> t.contains(y));
                    lemma_prefix_len(t, i);
                    assert(false);
                }
            }
            i = i + 1;
        }
    }

    /// Links a fresh empty cut with the caller-chosen id `id` under the cut
    /// `target`.
    pub(crate) fn insert_subgraph_with_id(&mut self, id: CutId, target: CutId) -> (r: GraphResult<
        CutId,
    >)
        requires
            old(self).well_formed(),
        ensures
            final(self).well_formed(),
            match r {
                Ok(rid) => {
                    &&& rid == id
                    &&& old(self)@.nodes.contains_key(target)
                    &&& !old(self)@.nodes.contains_key(id)
                    &&& final(self)@ == insert_node_spec(old(self)@, target, id)
                },
                Err(e) => {
                    &&& final(self)@ == old(self)@
                    &&& if !old(self)@.nodes.contains_key(target) {
                        e == GraphError::InvalidSubgraphTargetError(target)
                    } else {
                        old(self)@.nodes.contains_key(id) && e == GraphError::DuplicateIdError(id)
                    }
                },
            },
    {
        proof {
            reveal(Graph::rep_inv);
        }
        let ghost g = old(self)@;
        if !self.subgraphs.contains_key(&target) {
            return Err(GraphError::InvalidSubgraphTargetError(target));
        }
        if self.subgraphs.contains_key(&id) {
            return Err(GraphError::DuplicateIdError(id));
        }
        let total = self.subgraphs.len();
        let mut tnode = self.subgraphs.remove(&target).unwrap();
        let level = tnode.level();
        proof {
            assert(g.nodes.dom() =~= old(self).subgraphs@.dom());
            lemma_level_bound(g, target);
            assert(level < total);
        }
        tnode.subgraphs.push(id);
        self.subgraphs.insert(target, tnode);
        self.subgraphs.insert(id, Subgraph::new(level + 1));
        self.subgraph_parents.insert(id, target);
        proof {
            let exp = insert_node_spec(g, target, id);
            assert(self@.nodes =~~= exp.nodes);
            assert(self@ =~~= exp);
            lemma_insert_node_spec_wf(g, target, id);
        }
        Ok(id)
    }

    /// Links a fresh empty cut under the cut `target` and returns its new id.
    pub fn insert_subgraph(&mut self, target: CutId) -> (r: GraphResult<CutId>)
        requires
            old(self).well_formed(),
        ensures
            final(self).well_formed(),
            match r {
                Ok(rid) => {
                    &&& rid == fresh_id(old(self)@)
                    &&& old(self)@.nodes.contains_key(target)
                    &&& !old(self)@.nodes.contains_key(rid)
                    &&& final(self)@ == insert_node_spec(old(self)@, target, rid)
                },
                Err(e) => {
                    &&& e == GraphError::InvalidSubgraphTargetError(target)
                    &&& !old(self)@.nodes.contains_key(target)
                    &&& final(self)@ == old(self)@
                },
            },
    {
        let id = self.gen_unique_unused_key();
        self.insert_subgraph_with_id(id, target)
    }

    /// Removes `atom` from the cut `target` if present there (a no-op
    /// otherwise), lowering the name's usage count on an actual removal. The
    /// name is handed back exactly when its last use left the graph.
    pub fn remove_atom_from_subgraph(&mut self, target: CutId, atom: &Atom) -> (r: GraphResult<
        Option<Atom>,
    >)
        requires
            old(self).well_formed(),
        ensures
            final(self).well_formed(),
            match r {
                Ok(freed) => {
                    &&& old(self)@.nodes.contains_key(target)
                    &&& final(self)@ == remove_atom_spec(old(self)@, target, atom@)
                    &&& match freed {
                        Some(x) => x@ == atom@ && old(self)@.nodes[target].atoms.contains(atom@)
                            && old(self)@.usage[atom@] == 1,
                        None => !(old(self)@.nodes[target].atoms.contains(atom@)
                            && old(self)@.usage[atom@] == 1),
                    }
                },
                Err(e) => {
                    &&& e == GraphError::InvalidSubgraphTargetError(target)
                    &&& !old(self)@.nodes.contains_key(target)
                    &&& final(self)@ == old(self)@
                },
            },
    {
        proof {
            reveal(Graph::rep_inv);
        }
        let ghost g = old(self)@;
        if !self.subgraphs.contains_key(&target) {
            return Err(GraphError::InvalidSubgraphTargetError(target));
        }
        let mut node = self.subgraphs.remove(&target).unwrap();
        let n = node.atoms.len();
        let mut found: Option<usize> = None;
        for i in 0..n
            invariant
                n == node.atoms.len(),
                match found {
                    Some(k) => k < i && node.atoms@[k as int]@ == atom@ && forall|j: int|
                        0 <= j < k ==> (#[trigger] node.atoms@[j])@ != atom@,
                    None => forall|j: int| 0 <= j < i ==> (#[trigger] node.atoms@[j])@ != atom@,
                },
        {
            if found.is_none() && node.atoms[i].eq(atom) {
                found = Some(i);
            }
        }
        match found {
            None => {
                self.subgraphs.insert(target, node);
                proof {
                    assert(!g.nodes[target].atoms.contains(atom@));
                    assert(self@ =~~= g);
                    assert(remove_atom_spec(g, target, atom@) == g);
                }
                Ok(None)
            },
            Some(i) => {
                proof {
                    assert(g.nodes[target].atoms[i as int] == atom@);
                    assert(g.nodes[target].atoms.contains(atom@));
                    lemma_remove_atom_spec_wf(g, target, atom@);
                    g.nodes[target].atoms.index_of_first_ensures(atom@);
                    let i0 = g.nodes[target].atoms.index_of_first(atom@)->0;
                    if i0 < i {
                        assert(g.nodes[target].atoms[i0] == node.atoms@[i0]@);
                        assert(node.atoms@[i0]@ != atom@);
                        assert(false);
                    } else if i0 > i {
                        assert(g.nodes[target].atoms[i as int] != atom@);
                        assert(false);
                    }
                }
                let ghost oldatoms = node.atoms@;
                node.atoms.remove(i);
                self.subgraphs.insert(target, node);
                proof {
                    assert(atom_names(node.atoms@) =~= atom_names(oldatoms).remove(i as int));
                    assert(g.usage.contains_key(atom@));
                    assert(usage_map_of(self.known_atoms@).contains_key(atom@));
                }
                let freed = decrement_usage(&mut self.known_atoms, atom);
                proof {
                    let exp = remove_atom_spec(g, target, atom@);
                    assert(exp.nodes[target].atoms == g.nodes[target].atoms.remove(i as int));
                    assert(self@.nodes =~~= exp.nodes);
                    assert(g.usage[atom@] >= 1);
                    assert(self@ =~~= exp);
                }
                Ok(freed)
            },
        }
    }

    /// Whether `a` is a strict ancestor of `b`.
    pub fn is_ancestor(&self, a: CutId, b: CutId) -> (r: GraphResult<bool>)
        requires
            self.well_formed(),
        ensures
            match r {
                Ok(v) => self@.nodes.contains_key(a) && self@.nodes.contains_key(b)
                    && v == is_ancestor_of(self@, a, b),
                Err(e) => {
                    &&& !(self@.nodes.contains_key(a) && self@.nodes.contains_key(b))
                    &&& if !self@.nodes.contains_key(a) {
                        e == GraphError::InvalidSubgraphTargetError(a)
                    } else {
                        e == GraphError::InvalidSubgraphTargetError(b)
                    }
                },
            },
    {
        proof {
            reveal(Graph::rep_inv);
        }
        if !self.subgraphs.contains_key(&a) {
            return Err(GraphError::InvalidSubgraphTargetError(a));
        }
        if !self.subgraphs.contains_key(&b) {
            return Err(GraphError::InvalidSubgraphTargetError(b));
        }
        let mut cur = b;
        loop
            invariant
                self.well_formed(),
                self@.nodes.contains_key(a),
                self@.nodes.contains_key(b),
                self@.nodes.contains_key(cur),
                is_ancestor_of(self@, a, b) == is_ancestor_of(self@, a, cur),
            decreases self@.nodes[cur].level,
        {
            proof {
                reveal(Graph::rep_inv);
            }
            if cur == self.root_id {
                return Ok(false);
            }
            let p = match self.subgraph_parents.get(&cur) {
                Some(p) => *p,
                None => {
                    proof {
                        assert(self@.parent.contains_key(cur));
                        assert(false);
                    }
                    0
                },
            };
            if p == a {
                return Ok(true);
            }
            proof {
                assert(self@.nodes[cur].level == self@.nodes[p].level + 1);
            }
            cur = p;
        }
    }
}

/// The view of `g` after adding the atom name `a` to the cut `t`: a no-op if
/// the cut already holds the name, else the name is appended to the cut and
/// its usage count rises by one (from zero if the name was not live).
pub open spec fn insert_atom_spec(g: GraphView, t: CutId, a: Seq<char>) -> GraphView {
    if g.nodes[t].atoms.contains(a) {
        g
    } else {
        GraphView {
            nodes: g.nodes.insert(
                t,
                SubgraphView { atoms: g.nodes[t].atoms.push(a), ..g.nodes[t] },
            ),
            usage: g.usage.insert(
                a,
                if g.usage.contains_key(a) { (g.usage[a] + 1) as nat } else { 1nat },
            ),
            ..g
        }
    }
}

impl Default for Graph {
    /// The same graph as [`Graph::new`] builds.
    fn default() -> (r: Self)
        ensures
            r.well_formed(),
            r@ == empty_graph_view(r@.root),
    {
        Graph::new()
    }
}

/// Whether `x` is the smallest id that is not a cut of `g`.
pub open spec fn is_fresh_id(g: GraphView, x: CutId) -> bool {
    &&& !g.nodes.dom().contains(x)
    &&& forall|y: CutId| y < x ==> g.nodes.dom().contains(y)
}

/// The smallest id that is not a cut of `g`: the id that the graph hands out
/// next.
pub open spec fn fresh_id(g: GraphView) -> CutId {
    choose|x: CutId| is_fresh_id(g, x)
}

/// At most one id is the smallest unused one, so any witness equals
/// [`fresh_id`].
pub proof fn lemma_fresh_id_unique(g: GraphView, x: CutId)
    requires
        is_fresh_id(g, x),
    ensures
        fresh_id(g) == x,
{
    let c = fresh_id(g);
    assert(is_fresh_id(g, c));
    if c < x {
        assert(g.nodes.dom().contains(c));
    } else if x < c {
        assert(g.nodes.dom().contains(x));
    }
}

/// A finite set that holds every id below `n` has at least `n` elements.
proof fn lemma_prefix_len(s: Set<u64>, n: u64)
    requires
        s.finite(),
        forall|y: u64| y < n ==> s.contains(y),
    ensures
        s.len() >= n,
    decreases n,
{
    if n > 0 {
        let t = s.remove((n - 1) as u64);
        lemma_prefix_len(t, (n - 1) as u64);
    }
}

/// The ancestors of `id`, itself included.
pub open spec fn chain(g: GraphView, id: CutId) -> Set<CutId>
    decreases g.nodes[id].level,
    when wf(g) && g.nodes.dom().contains(id)
{
    if id == g.root {
        set![g.root]
    } else {
        proof {
            assert(g.parent.contains_key(id));
            assert(g.nodes[id].level == g.nodes[g.parent[id]].level + 1);
        }
        chain(g, g.parent[id]).insert(id)
    }
}

/// The ancestor chain of a cut is one longer than the cut's level, lies
/// inside the graph, and holds only cuts at or above the cut's level.
pub proof fn lemma_chain_props(g: GraphView, id: CutId)
    requires
        wf(g),
        g.nodes.dom().contains(id),
    ensures
        chain(g, id).finite(),
        chain(g, id).subset_of(g.nodes.dom()),
        chain(g, id).contains(id),
        chain(g, id).len() == g.nodes[id].level + 1,
        forall|x: CutId| #[trigger] chain(g, id).contains(x)
            ==> g.nodes.dom().contains(x) && g.nodes[x].level <= g.nodes[id].level,
    decreases g.nodes[id].level,
{
    if id != g.root {
        let p = g.parent[id];
        assert(g.parent.contains_key(id));
        assert(g.nodes.contains_key(p));
        assert(g.nodes[id].level == g.nodes[p].level + 1);
        lemma_chain_props(g, p);
        assert(!chain(g, p).contains(id));
    }
}

/// Every cut sits strictly fewer levels deep than the graph has cuts.
pub proof fn lemma_level_bound(g: GraphView, id: CutId)
    requires
        wf(g),
        g.nodes.dom().contains(id),
    ensures
        g.nodes[id].level < g.nodes.dom().len(),
{
    lemma_chain_props(g, id);
    vstd::set_lib::lemma_len_subset(chain(g, id), g.nodes.dom());
}

/// The view of `g` after linking a fresh empty cut `id` under the cut `t`.
pub open spec fn insert_node_spec(g: GraphView, t: CutId, id: CutId) -> GraphView {
    GraphView {
        nodes: g.nodes.insert(
            t,
            SubgraphView { subgraphs: g.nodes[t].subgraphs.push(id), ..g.nodes[t] },
        ).insert(
            id,
            SubgraphView {
                level: (g.nodes[t].level + 1) as nat,
                atoms: Seq::empty(),
                subgraphs: Seq::empty(),
            },
        ),
        parent: g.parent.insert(id, t),
        ..g
    }
}

/// Linking a fresh empty cut under an existing cut preserves the tree
/// invariants.
pub proof fn lemma_insert_node_spec_wf(g: GraphView, t: CutId, id: CutId)
    requires
        wf(g),
        g.nodes.contains_key(t),
        !g.nodes.contains_key(id),
    ensures
        wf(insert_node_spec(g, t, id)),
{
    broadcast use vstd::seq_lib::lemma_seq_contains_after_push;

    let g2 = insert_node_spec(g, t, id);
    assert(g2.nodes.dom() =~= g.nodes.dom().insert(id));
    assert(id != g.root);
    assert(g2.nodes[g2.root].level == 0);
    assert forall|x: CutId| #[trigger] g2.parent.contains_key(x) implies {
        &&& g2.nodes.contains_key(g2.parent[x])
        &&& g2.nodes[g2.parent[x]].subgraphs.contains(x)
        &&& g2.nodes[x].level == g2.nodes[g2.parent[x]].level + 1
    } by {
        if x == id {
            assert(g2.parent[id] == t);
            assert(g2.nodes[t].subgraphs == g.nodes[t].subgraphs.push(id));
        } else {
            let p = g.parent[x];
            assert(g.nodes[p].subgraphs.contains(x));
            if p == t {
                assert(g2.nodes[t].subgraphs.contains(x));
            }
        }
    }
    assert forall|p: CutId, i: int|
        g2.nodes.contains_key(p) && 0 <= i < g2.nodes[p].subgraphs.len()
        implies {
            let c = #[trigger] g2.nodes[p].subgraphs[i];
            &&& g2.nodes.contains_key(c)
            &&& c != g2.root
            &&& g2.parent.contains_key(c)
            &&& g2.parent[c] == p
        } by {
        if p == t {
            let c = g2.nodes[p].subgraphs[i];
            if i < g.nodes[t].subgraphs.len() {
                assert(c == g.nodes[t].subgraphs[i]);
                assert(g.nodes.contains_key(c));
                assert(c != id);
            } else {
                assert(c == id);
            }
        } else if p == id {
        } else {
            let c = g2.nodes[p].subgraphs[i];
            assert(c == g.nodes[p].subgraphs[i]);
            assert(g.nodes.contains_key(c));
            assert(c != id);
        }
    }
    assert forall|x: CutId| #[trigger] g2.nodes.contains_key(x) implies {
        &&& g2.nodes[x].subgraphs.no_duplicates()
        &&& g2.nodes[x].atoms.no_duplicates()
    } by {
        if x == t {
            let s = g.nodes[t].subgraphs;
            assert forall|i: int, j: int| 0 <= i < j < s.push(id).len()
                implies s.push(id)[i] != s.push(id)[j] by {
                if j == s.len() {
                    assert(s.push(id)[i] == s[i]);
                    assert(g.nodes.contains_key(s[i]));
                }
            }
        }
    }
    assert forall|a: Seq<char>| #[trigger] cuts_with(g2, a) =~= cuts_with(g, a) by {
        assert forall|x: CutId| cuts_with(g2, a).contains(x)
            <==> cuts_with(g, a).contains(x) by {
            if x == id {
                assert(g2.nodes[id].atoms.len() == 0);
            }
        }
    }
    assert forall|a: Seq<char>| #[trigger] g2.usage.contains_key(a)
        implies g2.usage[a] == cuts_with(g2, a).len() && g2.usage[a] >= 1 by {
        assert(cuts_with(g2, a) =~= cuts_with(g, a));
    }
    assert forall|a: Seq<char>| !(#[trigger] g2.usage.contains_key(a))
        implies cuts_with(g2, a) =~= Set::<CutId>::empty() by {
        assert(cuts_with(g2, a) =~= cuts_with(g, a));
    }
}

/// Adding a grammar-fitting atom to an existing cut preserves the tree
/// invariants.
pub proof fn lemma_insert_atom_spec_wf(g: GraphView, t: CutId, a: Seq<char>)
    requires
        wf(g),
        g.nodes.contains_key(t),
        g.nodes[t].atoms.contains(a) || valid_atom_name(a),
    ensures
        wf(insert_atom_spec(g, t, a)),
{
    broadcast use vstd::seq_lib::lemma_seq_contains_after_push;

    let g2 = insert_atom_spec(g, t, a);
    if !g.nodes[t].atoms.contains(a) {
        assert(g2.nodes.dom() =~= g.nodes.dom());
        assert forall|id: CutId, i: int|
            g2.nodes.contains_key(id) && 0 <= i < g2.nodes[id].atoms.len()
                implies valid_atom_name(#[trigger] g2.nodes[id].atoms[i]) by {
            if id == t {
                if i < g.nodes[t].atoms.len() {
                    assert(g2.nodes[t].atoms[i] == g.nodes[t].atoms[i]);
                    assert(valid_atom_name(g.nodes[t].atoms[i]));
                } else {
                    assert(g2.nodes[t].atoms[i] == a);
                }
            } else {
                assert(g2.nodes[id].atoms == g.nodes[id].atoms);
                assert(valid_atom_name(g.nodes[id].atoms[i]));
            }
        }
        assert forall|id: CutId| #[trigger] g2.nodes.contains_key(id)
            implies g2.nodes[id].subgraphs == g.nodes[id].subgraphs
                && g2.nodes[id].level == g.nodes[id].level by {}
        assert forall|id: CutId| #[trigger] g2.nodes.contains_key(id)
            implies g2.nodes[id].subgraphs.no_duplicates()
                && g2.nodes[id].atoms.no_duplicates() by {
            if id == t {
                let s = g.nodes[t].atoms;
                assert forall|i: int, j: int| 0 <= i < j < s.push(a).len()
                    implies s.push(a)[i] != s.push(a)[j] by {
                    if j == s.len() {
                        assert(s[i] == s.push(a)[i]);
                        assert(s.contains(s[i]));
                    }
                }
            }
        }
        assert forall|b: Seq<char>| true implies (if b == a {
            cuts_with(g2, b) =~= cuts_with(g, b).insert(t)
        } else {
            cuts_with(g2, b) =~= cuts_with(g, b)
        }) by {
            assert forall|id: CutId| cuts_with(g2, b).contains(id) <==> (if b == a {
                cuts_with(g, b).insert(t).contains(id)
            } else {
                cuts_with(g, b).contains(id)
            }) by {
                if g.nodes.dom().contains(id) {
                    if id == t {
                        assert(g2.nodes[t].atoms == g.nodes[t].atoms.push(a));
                        assert(g2.nodes[t].atoms.contains(b) <==> (b == a
                            || g.nodes[t].atoms.contains(b)));
                    }
                }
            }
        }
        assert(!cuts_with(g, a).contains(t));
        g.nodes.dom().lemma_len_filter(|id: CutId| g.nodes[id].atoms.contains(a));
        assert(cuts_with(g, a).finite());
        assert(cuts_with(g2, a).len() == cuts_with(g, a).len() + 1);
        if g.usage.contains_key(a) {
            assert(g.usage[a] == cuts_with(g, a).len());
        } else {
            assert(cuts_with(g, a) =~= Set::<CutId>::empty());
            assert(cuts_with(g2, a).len() == 1);
        }
        assert forall|b: Seq<char>| #[trigger] g2.usage.contains_key(b)
            implies g2.usage[b] == cuts_with(g2, b).len() && g2.usage[b] >= 1 by {
            if b != a {
                assert(g.usage.contains_key(b));
                assert(cuts_with(g2, b) =~= cuts_with(g, b));
            }
        }
        assert forall|b: Seq<char>| !(#[trigger] g2.usage.contains_key(b))
            implies cuts_with(g2, b) =~= Set::<CutId>::empty() by {
            assert(b != a);
            assert(!g.usage.contains_key(b));
            assert(cuts_with(g2, b) =~= cuts_with(g, b));
        }
    }
}

/// Removing the one occurrence of a value from a duplicate-free sequence
/// drops exactly that value.
pub proof fn lemma_no_dup_remove_value<A>(s: Seq<A>, v: A)
    requires
        s.no_duplicates(),
        s.contains(v),
    ensures
        s.remove_value(v).len() == s.len() - 1,
        s.remove_value(v).no_duplicates(),
        forall|x: A| #[trigger] s.remove_value(v).contains(x) <==> (s.contains(x) && x != v),
{
    s.index_of_first_ensures(v);
    let i = s.index_of_first(v)->0;
    s.remove_ensures(i);
    let r = s.remove(i);
    assert(s.remove_value(v) == r);
    assert forall|x: A| #[trigger] r.contains(x) implies (s.contains(x) && x != v) by {
        let k = choose|k: int| 0 <= k < r.len() && r[k] == x;
        if k < i {
            assert(s[k] == x);
        } else {
            assert(s[k + 1] == x);
        }
    }
    assert forall|x: A| s.contains(x) && x != v implies #[trigger] r.contains(x) by {
        let j = choose|j: int| 0 <= j < s.len() && s[j] == x;
        if j < i {
            assert(r[j] == x);
        } else {
            assert(j != i);
            assert(r[j - 1] == x);
        }
    }
    assert forall|p: int, q: int| 0 <= p < q < r.len() implies r[p] != r[q] by {
        let sp: int = if p < i { p } else { p + 1 };
        let sq: int = if q < i { q } else { q + 1 };
        assert(r[p] == s[sp] && r[q] == s[sq]);
    }
}

/// The view of `g` after removing the atom name `a` from the cut `t`: a
/// no-op if the cut does not hold the name, else the name leaves the cut and
/// its usage count falls by one, leaving the usage map when it reaches zero.
pub open spec fn remove_atom_spec(g: GraphView, t: CutId, a: Seq<char>) -> GraphView {
    if g.nodes[t].atoms.contains(a) {
        GraphView {
            nodes: g.nodes.insert(
                t,
                SubgraphView { atoms: g.nodes[t].atoms.remove_value(a), ..g.nodes[t] },
            ),
            usage: if g.usage.contains_key(a) && g.usage[a] == 1 {
                g.usage.remove(a)
            } else {
                g.usage.insert(a, (g.usage[a] - 1) as nat)
            },
            ..g
        }
    } else {
        g
    }
}

/// Removing an atom from an existing cut preserves the tree invariants.
pub proof fn lemma_remove_atom_spec_wf(g: GraphView, t: CutId, a: Seq<char>)
    requires
        wf(g),
        g.nodes.contains_key(t),
    ensures
        wf(remove_atom_spec(g, t, a)),
        g.nodes[t].atoms.contains(a) ==> g.usage.contains_key(a) && g.usage[a] >= 1,
{
    let g2 = remove_atom_spec(g, t, a);
    if g.nodes[t].atoms.contains(a) {
        assert forall|id: CutId, i: int|
            g2.nodes.contains_key(id) && 0 <= i < g2.nodes[id].atoms.len()
                implies valid_atom_name(#[trigger] g2.nodes[id].atoms[i]) by {
            if id == t {
                let old_atoms = g.nodes[t].atoms;
                old_atoms.index_of_first_ensures(a);
                let i0 = old_atoms.index_of_first(a)->0;
                old_atoms.remove_ensures(i0);
                if i < i0 {
                    assert(g2.nodes[t].atoms[i] == old_atoms[i]);
                    assert(valid_atom_name(old_atoms[i]));
                } else {
                    assert(g2.nodes[t].atoms[i] == old_atoms[i + 1]);
                    assert(valid_atom_name(old_atoms[i + 1]));
                }
            } else {
                assert(g2.nodes[id].atoms == g.nodes[id].atoms);
                assert(valid_atom_name(g.nodes[id].atoms[i]));
            }
        }
        assert(cuts_with(g, a).contains(t));
        if !g.usage.contains_key(a) {
            assert(cuts_with(g, a) =~= Set::<CutId>::empty());
            assert(false);
        }
        g.nodes.dom().lemma_len_filter(|id: CutId| g.nodes[id].atoms.contains(a));
        lemma_no_dup_remove_value(g.nodes[t].atoms, a);
        assert(g2.nodes.dom() =~= g.nodes.dom());
        assert forall|id: CutId| #[trigger] g2.nodes.contains_key(id)
            implies g2.nodes[id].subgraphs == g.nodes[id].subgraphs
                && g2.nodes[id].level == g.nodes[id].level
                && g2.nodes[id].subgraphs.no_duplicates()
                && g2.nodes[id].atoms.no_duplicates() by {}
        assert forall|b: Seq<char>| b != a
            implies #[trigger] cuts_with(g2, b) =~= cuts_with(g, b) by {
            assert forall|id: CutId| cuts_with(g2, b).contains(id)
                <==> cuts_with(g, b).contains(id) by {
                if id == t && g.nodes.dom().contains(id) {
                    assert(g2.nodes[t].atoms.contains(b) <==> g.nodes[t].atoms.contains(b));
                }
            }
        }
        assert(cuts_with(g2, a) =~= cuts_with(g, a).remove(t));
        assert(cuts_with(g2, a).len() == cuts_with(g, a).len() - 1);
        if g.usage[a] == 1 {
            vstd::set_lib::lemma_len_subset(cuts_with(g2, a), g.nodes.dom());
            assert(cuts_with(g2, a).len() == 0);
            assert(cuts_with(g2, a) =~= Set::<CutId>::empty());
            assert forall|b: Seq<char>| #[trigger] g2.usage.contains_key(b)
                implies g2.usage[b] == cuts_with(g2, b).len() && g2.usage[b] >= 1 by {
                assert(cuts_with(g2, b) =~= cuts_with(g, b));
            }
            assert forall|b: Seq<char>| !(#[trigger] g2.usage.contains_key(b))
                implies cuts_with(g2, b) =~= Set::<CutId>::empty() by {
                if b != a {
                    assert(!g.usage.contains_key(b));
                    assert(cuts_with(g2, b) =~= cuts_with(g, b));
                }
            }
        } else {
            assert forall|b: Seq<char>| #[trigger] g2.usage.contains_key(b)
                implies g2.usage[b] == cuts_with(g2, b).len() && g2.usage[b] >= 1 by {
                if b != a {
                    assert(cuts_with(g2, b) =~= cuts_with(g, b));
                }
            }
            assert forall|b: Seq<char>| !(#[trigger] g2.usage.contains_key(b))
                implies cuts_with(g2, b) =~= Set::<CutId>::empty() by {
                assert(b != a);
                assert(!g.usage.contains_key(b));
                assert(cuts_with(g2, b) =~= cuts_with(g, b));
            }
        }
    }
}

/// Whether `a` is a strict ancestor of `b`: some walk up the parent chain
/// from `b` reaches `a`.
pub open spec fn is_ancestor_of(g: GraphView, a: CutId, b: CutId) -> bool
    decreases g.nodes[b].level,
    when wf(g) && g.nodes.dom().contains(b)
{
    if b == g.root {
        false
    } else {
        proof {
            assert(g.parent.contains_key(b));
            assert(g.nodes[b].level == g.nodes[g.parent[b]].level + 1);
        }
        g.parent[b] == a || is_ancestor_of(g, a, g.parent[b])
    }
}

/// The usage count of every atom name is correct: a name is a key of the
/// usage map exactly when some cut holds it, and its count is the number of
/// cuts that do.
pub proof fn lemma_usage_correct(g: GraphView, a: Seq<char>)
    requires
        wf(g),
    ensures
        g.usage.contains_key(a) <==> cuts_with(g, a).len() >= 1,
        g.usage.contains_key(a) ==> g.usage[a] == cuts_with(g, a).len(),
{
    if !g.usage.contains_key(a) {
        assert(cuts_with(g, a) =~= Set::<CutId>::empty());
    }
}

/// The depth of the cut `id`, computed by walking the parent chain: 0 at the
/// root, one more at each step down.
pub open spec fn depth(g: GraphView, id: CutId) -> nat
    decreases g.nodes[id].level,
    when wf(g) && g.nodes.dom().contains(id)
{
    if id == g.root {
        0
    } else {
        proof {
            assert(g.parent.contains_key(id));
            assert(g.nodes[id].level == g.nodes[g.parent[id]].level + 1);
        }
        depth(g, g.parent[id]) + 1
    }
}

/// The cached level of every cut equals its depth along the parent chain.
pub proof fn lemma_level_is_depth(g: GraphView, id: CutId)
    requires
        wf(g),
        g.nodes.contains_key(id),
    ensures
        g.nodes[id].level == depth(g, id),
    decreases g.nodes[id].level,
{
    if id != g.root {
        assert(g.parent.contains_key(id));
        lemma_level_is_depth(g, g.parent[id]);
    }
}

/// Whether `x` lies in the subtree rooted at `t`: it is `t` itself or a
/// descendant of `t`.
pub open spec fn in_subtree(g: GraphView, x: CutId, t: CutId) -> bool {
    x == t || is_ancestor_of(g, t, x)
}

/// A strict ancestor lies strictly fewer levels deep, and is itself a cut.
pub proof fn lemma_ancestor_level(g: GraphView, a: CutId, b: CutId)
    requires
        wf(g),
        g.nodes.dom().contains(b),
        is_ancestor_of(g, a, b),
    ensures
        g.nodes.dom().contains(a),
        g.nodes[a].level < g.nodes[b].level,
    decreases g.nodes[b].level,
{
    let p = g.parent[b];
    assert(g.parent.contains_key(b));
    assert(g.nodes.contains_key(p));
    if p != a {
        lemma_ancestor_level(g, a, p);
    }
}

/// An element of a cut's child list is a cut whose parent entry points back.
pub proof fn lemma_child_parent(g: GraphView, p: CutId, c: CutId)
    requires
        wf(g),
        g.nodes.contains_key(p),
        g.nodes[p].subgraphs.contains(c),
    ensures
        g.nodes.contains_key(c),
        c != g.root,
        g.parent.contains_key(c),
        g.parent[c] == p,
        g.nodes[c].level == g.nodes[p].level + 1,
{
    let i = choose|i: int| 0 <= i < g.nodes[p].subgraphs.len() && g.nodes[p].subgraphs[i] == c;
    assert(g.nodes[p].subgraphs[i] == c);
}

/// Appending a value that a duplicate-free sequence lacks keeps it
/// duplicate-free.
proof fn lemma_no_dup_push<A>(s: Seq<A>, v: A)
    requires
        s.no_duplicates(),
        !s.contains(v),
    ensures
        s.push(v).no_duplicates(),
{
    assert forall|i: int, j: int| 0 <= i < j < s.push(v).len()
        implies s.push(v)[i] != s.push(v)[j] by {
        if j == s.len() {
            assert(s.push(v)[i] == s[i]);
            assert(s.contains(s[i]));
        }
    }
}

/// A sequence closed under taking children and holding `t` holds the whole
/// subtree of `t`.
proof fn lemma_subtree_closed(g: GraphView, t: CutId, s: Seq<CutId>, x: CutId)
    requires
        wf(g),
        g.nodes.dom().contains(t),
        g.nodes.dom().contains(x),
        s.contains(t),
        forall|k: int, c: CutId|
            0 <= k < s.len() && g.nodes.dom().contains(s[k])
                && (#[trigger] g.nodes[s[k]].subgraphs.contains(c)) ==> s.contains(c),
        in_subtree(g, x, t),
    ensures
        s.contains(x),
    decreases g.nodes[x].level,
{
    if x != t {
        assert(is_ancestor_of(g, t, x));
        assert(x != g.root) by {
            if x == g.root {
                assert(!is_ancestor_of(g, t, x));
            }
        }
        let p = g.parent[x];
        assert(g.parent.contains_key(x));
        assert(g.nodes.contains_key(p));
        assert(g.nodes[x].level == g.nodes[p].level + 1);
        assert(in_subtree(g, p, t));
        lemma_subtree_closed(g, t, s, p);
        let k = choose|k: int| 0 <= k < s.len() && s[k] == p;
        assert(g.nodes[s[k]].subgraphs.contains(x));
    }
}

impl Graph {
    /// All cuts of the subtree rooted at `t`: `t` itself and its
    /// descendants, each exactly once.
    fn collect_subtree(&self, t: CutId) -> (r: Vec<CutId>)
        requires
            self.well_formed(),
            self@.nodes.contains_key(t),
        ensures
            r@.no_duplicates(),
            forall|x: CutId| #[trigger] r@.contains(x)
                <==> self@.nodes.contains_key(x) && in_subtree(self@, x, t),
    {
        proof {
            reveal(Graph::rep_inv);
            assert(self@.nodes.dom() =~= self.subgraphs@.dom());
        }
        let ghost g = self@;
        let total = self.subgraphs.len();
        let mut out: Vec<CutId> = Vec::new();
        out.push(t);
        let mut idx: usize = 0;
        while idx < out.len()
            invariant
                self.well_formed(),
                g == self@,
                g.nodes.contains_key(t),
                total == g.nodes.dom().len(),
                idx <= out@.len(),
                out@.len() >= 1,
                out@[0] == t,
                out@.no_duplicates(),
                forall|k: int| 0 <= k < out@.len()
                    ==> g.nodes.dom().contains(#[trigger] out@[k])
                        && in_subtree(g, out@[k], t),
                forall|k: int| 1 <= k < out@.len()
                    ==> g.parent.contains_key(#[trigger] out@[k])
                        && out@.take(idx as int).contains(g.parent[out@[k]]),
                forall|k: int, c: CutId|
                    0 <= k < idx && (#[trigger] g.nodes[out@[k]].subgraphs.contains(c))
                        ==> out@.contains(c),
            decreases total - idx,
        {
            proof {
                reveal(Graph::rep_inv);
                out@.unique_seq_to_set();
                vstd::set_lib::lemma_len_subset(out@.to_set(), g.nodes.dom());
                assert(out@.len() <= total);
            }
            let id = out[idx];
            let node = match self.subgraphs.get(&id) {
                Some(n) => n,
                None => {
                    proof {
                        assert(false);
                    }
                    return out;
                },
            };
            let m = node.subgraphs.len();
            let ghost out_before = out@;
            for j in 0..m
                invariant
                    self.well_formed(),
                    g == self@,
                    g.nodes.contains_key(t),
                    g.nodes.contains_key(id),
                    idx < out_before.len(),
                    out_before[idx as int] == id,
                    m == node.subgraphs@.len(),
                    node.subgraphs@ == g.nodes[id].subgraphs,
                    out@ == out_before + g.nodes[id].subgraphs.take(j as int),
                    out@[0] == t,
                    out@.no_duplicates(),
                    forall|k: int| 0 <= k < out@.len()
                        ==> g.nodes.dom().contains(#[trigger] out@[k])
                            && in_subtree(g, out@[k], t),
                    forall|k: int| 1 <= k < out_before.len()
                        ==> g.parent.contains_key(#[trigger] out@[k])
                            && out_before.take(idx as int).contains(g.parent[out@[k]]),
                    forall|k: int, c: CutId|
                        0 <= k < idx && (#[trigger] g.nodes[out_before[k]].subgraphs.contains(c))
                            ==> out@.contains(c),
            {
                let c = node.subgraphs[j];
                proof {
                    reveal(Graph::rep_inv);
                    assert(out@[idx as int] == id);
                    assert(in_subtree(g, id, t));
                    assert(g.nodes[id].subgraphs[j as int] == c);
                    assert(g.nodes[id].subgraphs.contains(c));
                    lemma_child_parent(g, id, c);
                    assert(in_subtree(g, c, t)) by {
                        if id == t {
                        } else {
                            assert(is_ancestor_of(g, t, id));
                        }
                    }
                    // `c` is not yet collected. A collected cut is `t`, an
                    // earlier-processed cut's child, or a child of `id`
                    // pushed in this round; each case contradicts `c` having
                    // parent `id` at position `idx`, or duplicate-freedom.
                    if out@.contains(c) {
                        let k = choose|k: int| 0 <= k < out@.len() && out@[k] == c;
                        if k == 0 {
                            assert(c == t);
                            assert(g.parent[t] == id);
                            if id == t {
                                assert(g.nodes[t].level == g.nodes[g.parent[t]].level + 1);
                            } else {
                                lemma_ancestor_level(g, t, id);
                                assert(g.nodes[t].level == g.nodes[id].level + 1);
                            }
                            assert(false);
                        } else if k < out_before.len() {
                            assert(out@[k] == out_before[k]);
                            assert(out_before.take(idx as int).contains(g.parent[out@[k]]));
                            let kk = choose|kk: int|
                                0 <= kk < idx && #[trigger] out_before.take(idx as int)[kk]
                                    == id;
                            assert(out@[kk] == out_before[kk]);
                            assert(out@[kk] == id);
                            assert(out@[idx as int] == id);
                            assert(false);
                        } else {
                            let jj = k - out_before.len();
                            assert(out@[k] == g.nodes[id].subgraphs.take(j as int)[jj]);
                            assert(g.nodes[id].subgraphs[jj] == c);
                            assert(g.nodes[id].subgraphs.no_duplicates());
                            assert(false);
                        }
                    }
                    lemma_no_dup_push(out@, c);
                }
                let ghost out_pre_push = out@;
                out.push(c);
                proof {
                    assert(out@ =~= out_before + g.nodes[id].subgraphs.take(j + 1));
                    assert forall|k: int| 1 <= k < out_before.len()
                        implies g.parent.contains_key(#[trigger] out@[k])
                            && out_before.take(idx as int).contains(g.parent[out@[k]]) by {
                        assert(out@[k] == out_before[k]);
                    }
                    assert forall|k: int, c2: CutId|
                        0 <= k < idx && (#[trigger] g.nodes[out_before[k]].subgraphs.contains(
                            c2,
                        )) implies out@.contains(c2) by {
                        assert(out_pre_push.contains(c2));
                        let ii = choose|ii: int|
                            0 <= ii < out_pre_push.len() && out_pre_push[ii] == c2;
                        assert(out@[ii] == c2);
                    }
                }
            }
            idx = idx + 1;
            proof {
                reveal(Graph::rep_inv);
                let taken = g.nodes[id].subgraphs.take(m as int);
                assert(taken =~= g.nodes[id].subgraphs);
                assert(out@ == out_before + g.nodes[id].subgraphs);
                assert forall|k: int| 1 <= k < out@.len()
                    implies g.parent.contains_key(#[trigger] out@[k])
                        && out@.take(idx as int).contains(g.parent[out@[k]]) by {
                    if k < out_before.len() {
                        assert(out@[k] == out_before[k]);
                        let kk = choose|kk: int|
                            0 <= kk < idx - 1 && #[trigger] out_before.take(idx as int - 1)[kk]
                                == g.parent[out@[k]];
                        assert(out@[kk] == out_before[kk]);
                        assert(out@.take(idx as int)[kk] == g.parent[out@[k]]);
                    } else {
                        assert(out@[k] == g.nodes[id].subgraphs[k - out_before.len()]);
                        assert(g.nodes[id].subgraphs.contains(out@[k]));
                        lemma_child_parent(g, id, out@[k]);
                        assert(out@.take(idx as int)[idx as int - 1] == id);
                    }
                }
                assert forall|k: int, c: CutId|
                    0 <= k < idx && (#[trigger] g.nodes[out@[k]].subgraphs.contains(c))
                        implies out@.contains(c) by {
                    if k < idx - 1 {
                        assert(out@[k] == out_before[k]);
                        assert(g.nodes[out_before[k]].subgraphs.contains(c));
                    } else {
                        assert(out@[k] == out_before[idx - 1]);
                        assert(out@[k] == id);
                        let jj = choose|jj: int|
                            0 <= jj < g.nodes[id].subgraphs.len() && g.nodes[id].subgraphs[jj]
                                == c;
                        assert(out@[out_before.len() + jj] == c);
                    }
                }
            }
        }
        proof {
            assert forall|x: CutId|
                self@.nodes.contains_key(x) && in_subtree(self@, x, t)
                    implies #[trigger] out@.contains(x) by {
                assert(out@.contains(out@[0]));
                lemma_subtree_closed(g, t, out@, x);
            }
        }
        out
    }

    /// Re-parents the cut `target` under the cut `dest`, re-leveling the
    /// whole subtree of `target`. The root cannot be moved, and `dest` may
    /// not lie in the subtree of `target` (that would detach a cycle from
    /// the tree).
    pub fn move_subgraph(&mut self, target: CutId, dest: CutId) -> (r: GraphResult<()>)
        requires
            old(self).well_formed(),
        ensures
            final(self).well_formed(),
            match r {
                Ok(()) => {
                    &&& target != old(self)@.root
                    &&& old(self)@.nodes.contains_key(target)
                    &&& old(self)@.nodes.contains_key(dest)
                    &&& !in_subtree(old(self)@, dest, target)
                    &&& final(self)@ == move_spec(old(self)@, target, dest)
                },
                Err(e) => {
                    &&& final(self)@ == old(self)@
                    &&& if target == old(self)@.root {
                        e == GraphError::InvalidRootGraphTargetError
                    } else if !old(self)@.nodes.contains_key(target) {
                        e == GraphError::InvalidSubgraphTargetError(target)
                    } else if !old(self)@.nodes.contains_key(dest) {
                        e == GraphError::InvalidSubgraphTargetError(dest)
                    } else {
                        in_subtree(old(self)@, dest, target)
                            && e == GraphError::InvalidSubgraphTargetError(dest)
                    }
                },
            },
    {
        proof {
            reveal(Graph::rep_inv);
        }
        let ghost g = old(self)@;
        if target == self.root_id {
            return Err(GraphError::InvalidRootGraphTargetError);
        }
        let src = match self.subgraph_parents.get(&target) {
            Some(p) => *p,
            None => {
                proof {
                    if g.nodes.contains_key(target) {
                        assert(g.parent.contains_key(target));
                    }
                }
                return Err(GraphError::InvalidSubgraphTargetError(target));
            },
        };
        proof {
            assert(g.parent.contains_key(target));
            assert(g.nodes.contains_key(target));
            assert(g.nodes.contains_key(src));
            assert(g.nodes[src].subgraphs.contains(target));
        }
        if !self.subgraphs.contains_key(&dest) {
            return Err(GraphError::InvalidSubgraphTargetError(dest));
        }
        if dest == target {
            return Err(GraphError::InvalidSubgraphTargetError(dest));
        }
        let anc = match self.is_ancestor(target, dest) {
            Ok(b) => b,
            Err(_) => {
                proof {
                    assert(false);
                }
                false
            },
        };
        if anc {
            return Err(GraphError::InvalidSubgraphTargetError(dest));
        }
        let total = self.subgraphs.len();
        proof {
            assert(g.nodes.dom() =~= self.subgraphs@.dom());
            assert(total == g.nodes.dom().len());
        }
        let t_lvl = match self.subgraphs.get(&target) {
            Some(n) => n.level(),
            None => {
                proof {
                    assert(false);
                }
                0
            },
        };
        let d_lvl = match self.subgraphs.get(&dest) {
            Some(n) => n.level(),
            None => {
                proof {
                    assert(false);
                }
                0
            },
        };
        let subtree = self.collect_subtree(target);
        proof {
            lemma_move_spec_wf(g, target, dest);
        }
        let ghost g2 = move_spec(g, target, dest);
        // Re-hang the parent pointer and the two child lists.
        self.subgraph_parents.insert(target, dest);
        let mut snode = match self.subgraphs.remove(&src) {
            Some(n) => n,
            None => {
                proof {
                    assert(false);
                }
                Subgraph::new(0)
            },
        };
        let n = snode.subgraphs.len();
        let mut found: Option<usize> = None;
        for i in 0..n
            invariant
                n == snode.subgraphs@.len(),
                match found {
                    Some(k) => k < i && snode.subgraphs@[k as int] == target && forall|j: int|
                        0 <= j < k ==> snode.subgraphs@[j] != target,
                    None => forall|j: int| 0 <= j < i ==> snode.subgraphs@[j] != target,
                },
        {
            if found.is_none() && snode.subgraphs[i] == target {
                found = Some(i);
            }
        }
        let ti = match found {
            Some(k) => k,
            None => {
                proof {
                    assert(snode.subgraphs@ == g.nodes[src].subgraphs);
                    let j = choose|j: int|
                        0 <= j < g.nodes[src].subgraphs.len() && g.nodes[src].subgraphs[j]
                            == target;
                    assert(snode.subgraphs@[j] == target);
                    assert(false);
                }
                0
            },
        };
        proof {
            let sseq = g.nodes[src].subgraphs;
            sseq.index_of_first_ensures(target);
            let i0 = sseq.index_of_first(target)->0;
            if i0 < ti {
                assert(snode.subgraphs@[i0] != target);
                assert(false);
            } else if i0 > ti {
                assert(sseq[ti as int] != target);
                assert(false);
            }
        }
        snode.subgraphs.remove(ti);
        self.subgraphs.insert(src, snode);
        let mut dnode = match self.subgraphs.remove(&dest) {
            Some(n) => n,
            None => {
                proof {
                    assert(false);
                }
                Subgraph::new(0)
            },
        };
        dnode.subgraphs.push(target);
        self.subgraphs.insert(dest, dnode);
        proof {
            assert(self@.parent =~= g2.parent);
            assert(self@.nodes.dom() =~= g.nodes.dom());
            assert forall|id: CutId| #[trigger] g.nodes.contains_key(id)
                implies self@.nodes[id].atoms == g.nodes[id].atoms
                    && self@.nodes[id].subgraphs == g2.nodes[id].subgraphs
                    && self@.nodes[id].level == g.nodes[id].level by {
                if id == src && id == dest {
                    assert(self@.nodes[id].subgraphs =~= g.nodes[id].subgraphs.remove_value(
                        target,
                    ).push(target));
                } else if id == src {
                    assert(self@.nodes[id].subgraphs =~= g.nodes[id].subgraphs.remove_value(
                        target,
                    ));
                }
            }
        }
        // Re-level the subtree: every cut in it shifts by the same amount.
        let ghost moved = subtree@;
        let sn = subtree.len();
        for k in 0..sn
            invariant
                sn == moved.len(),
                subtree@ == moved,
                moved.no_duplicates(),
                total == g.nodes.dom().len(),
                g2 == move_spec(g, target, dest),
                wf(g),
                wf(g2),
                g.nodes.contains_key(target),
                target != g.root,
                g.nodes.contains_key(dest),
                !in_subtree(g, dest, target),
                g.nodes[target].level == t_lvl,
                g.nodes[dest].level == d_lvl,
                forall|x: CutId| #[trigger] moved.contains(x)
                    <==> g.nodes.contains_key(x) && in_subtree(g, x, target),
                self@.root == g.root,
                self@.parent == g2.parent,
                self@.usage == g.usage,
                self@.nodes.dom() =~= g.nodes.dom(),
                forall|id: CutId| #[trigger] g.nodes.contains_key(id)
                    ==> self@.nodes[id].atoms == g.nodes[id].atoms
                        && self@.nodes[id].subgraphs == g2.nodes[id].subgraphs
                        && self@.nodes[id].level == (if moved.take(k as int).contains(id) {
                            g2.nodes[id].level
                        } else {
                            g.nodes[id].level
                        }),
                self.known_atoms@ == old(self).known_atoms@,
        {
            let x = subtree[k];
            proof {
                assert(moved[k as int] == x);
                assert(moved.contains(x));
                assert(!moved.take(k as int).contains(x)) by {
                    if moved.take(k as int).contains(x) {
                        let kk = choose|kk: int|
                            0 <= kk < k && #[trigger] moved.take(k as int)[kk] == x;
                        assert(moved[kk] == moved[k as int]);
                    }
                }
                assert(g.nodes[x].level >= t_lvl) by {
                    if x != target {
                        lemma_ancestor_level(g, target, x);
                    }
                }
                lemma_level_bound(g2, x);
                assert(g2.nodes.dom() =~= g.nodes.dom());
                assert(g2.nodes[x].level == g.nodes[x].level - t_lvl + d_lvl + 1);
                assert(g2.nodes[x].level < total);
            }
            let mut node = match self.subgraphs.remove(&x) {
                Some(n) => n,
                None => {
                    proof {
                        assert(false);
                    }
                    Subgraph::new(0)
                },
            };
            let nl = node.level() - t_lvl + d_lvl + 1;
            node.set_level(nl);
            self.subgraphs.insert(x, node);
            proof {
                assert(self@.nodes.dom() =~= g.nodes.dom());
                assert forall|id: CutId| #[trigger] g.nodes.contains_key(id)
                    implies self@.nodes[id].atoms == g.nodes[id].atoms
                        && self@.nodes[id].subgraphs == g2.nodes[id].subgraphs
                        && self@.nodes[id].level == (if moved.take(k + 1).contains(id) {
                            g2.nodes[id].level
                        } else {
                            g.nodes[id].level
                        }) by {
                    if id != x {
                        assert(moved.take(k + 1).contains(id) == moved.take(k as int).contains(
                            id,
                        )) by {
                            assert(moved.take(k + 1) == moved.take(k as int).push(moved[k as int]));
                            if moved.take(k + 1).contains(id) {
                                let kk = choose|kk: int|
                                    0 <= kk < k + 1 && #[trigger] moved.take(k + 1)[kk] == id;
                                assert(kk < k);
                                assert(moved.take(k as int)[kk] == id);
                            } else {
                                if moved.take(k as int).contains(id) {
                                    let kk = choose|kk: int|
                                        0 <= kk < k && #[trigger] moved.take(k as int)[kk] == id;
                                    assert(moved.take(k + 1)[kk] == id);
                                }
                            }
                        }
                    } else {
                        assert(moved.take(k + 1)[k as int] == x);
                        assert(moved.take(k + 1).contains(x));
                    }
                }
            }
        }
        proof {
            assert forall|id: CutId| #[trigger] g.nodes.contains_key(id)
                implies self@.nodes[id] == g2.nodes[id] by {
                if in_subtree(g, id, target) {
                    assert(moved.take(sn as int).contains(id)) by {
                        assert(moved.take(sn as int) =~= moved);
                        assert(moved.contains(id));
                    }
                    assert(self@.nodes[id].level == g2.nodes[id].level);
                } else {
                    assert(!moved.take(sn as int).contains(id)) by {
                        assert(moved.take(sn as int) =~= moved);
                    }
                    assert(g2.nodes[id].level == g.nodes[id].level);
                }
                assert(g2.nodes[id].atoms == g.nodes[id].atoms);
                assert(self@.nodes[id] =~= g2.nodes[id]);
            }
            assert(self@.nodes =~= g2.nodes);
            assert(self@ =~= g2);
        }
        Ok(())
    }

    /// Deletes the cut `target`. Without `recursive` the cut must be empty;
    /// with it, the whole subtree is deleted and every contained atom's
    /// usage count drops. The root cannot be deleted.
    pub fn remove_subgraph(&mut self, target: CutId, recursive: bool) -> (r: GraphResult<()>)
        requires
            old(self).well_formed(),
        ensures
            final(self).well_formed(),
            match r {
                Ok(()) => {
                    &&& old(self)@.nodes.contains_key(target)
                    &&& target != old(self)@.root
                    &&& recursive || (old(self)@.nodes[target].atoms.len() == 0
                        && old(self)@.nodes[target].subgraphs.len() == 0)
                    &&& if recursive {
                        let g = old(self)@;
                        let p = g.parent[target];
                        &&& final(self)@.root == g.root
                        &&& forall|x: CutId| #[trigger] final(self)@.nodes.contains_key(x)
                            <==> g.nodes.contains_key(x) && !in_subtree(g, x, target)
                        &&& forall|x: CutId| #[trigger] final(self)@.nodes.contains_key(x)
                            ==> final(self)@.nodes[x] == (if x == p {
                                SubgraphView {
                                    subgraphs: g.nodes[p].subgraphs.remove_value(target),
                                    ..g.nodes[p]
                                }
                            } else {
                                g.nodes[x]
                            })
                        &&& forall|x: CutId| #[trigger] final(self)@.parent.contains_key(x)
                            <==> g.parent.contains_key(x) && !in_subtree(g, x, target)
                        &&& forall|x: CutId| #[trigger] final(self)@.parent.contains_key(x)
                            ==> final(self)@.parent[x] == g.parent[x]
                    } else {
                        final(self)@ == remove_leaf_spec(old(self)@, target)
                    }
                },
                Err(e) => {
                    &&& final(self)@ == old(self)@
                    &&& if target == old(self)@.root {
                        e == GraphError::InvalidRootGraphTargetError
                    } else if !old(self)@.nodes.contains_key(target) {
                        e == GraphError::InvalidSubgraphTargetError(target)
                    } else {
                        &&& !recursive
                        &&& old(self)@.nodes[target].atoms.len() != 0
                            || old(self)@.nodes[target].subgraphs.len() != 0
                        &&& e == GraphError::NotEmptyError(target)
                    }
                },
            },
    {
        proof {
            reveal(Graph::rep_inv);
        }
        let ghost g = old(self)@;
        if target == self.root_id {
            return Err(GraphError::InvalidRootGraphTargetError);
        }
        let empty = match self.subgraphs.get(&target) {
            Some(n) => n.atoms.len() == 0 && n.subgraphs.len() == 0,
            None => {
                return Err(GraphError::InvalidSubgraphTargetError(target));
            },
        };
        if !recursive && !empty {
            return Err(GraphError::NotEmptyError(target));
        }
        let p = match self.subgraph_parents.get(&target) {
            Some(p) => *p,
            None => {
                proof {
                    assert(g.parent.contains_key(target));
                    assert(false);
                }
                0
            },
        };
        proof {
            assert(g.nodes.contains_key(p));
            assert(g.nodes[p].subgraphs.contains(target));
            assert(p != target) by {
                assert(g.nodes[target].level == g.nodes[p].level + 1);
            }
            assert(!in_subtree(g, p, target)) by {
                if is_ancestor_of(g, target, p) {
                    lemma_ancestor_level(g, target, p);
                }
            }
        }
        if !recursive {
            let mut pnode = match self.subgraphs.remove(&p) {
                Some(n) => n,
                None => {
                    proof {
                        assert(false);
                    }
                    Subgraph::new(0)
                },
            };
            pnode.remove_child(target);
            self.subgraphs.insert(p, pnode);
            self.subgraphs.remove(&target);
            self.subgraph_parents.remove(&target);
            proof {
                let exp = remove_leaf_spec(g, target);
                assert(self@.nodes =~~= exp.nodes);
                assert(self@ =~~= exp);
                lemma_remove_leaf_spec_wf(g, target);
            }
            return Ok(());
        }
        let subtree = self.collect_subtree(target);
        let ghost dropped = subtree@;
        let ghost padj = SubgraphView {
            subgraphs: g.nodes[p].subgraphs.remove_value(target),
            ..g.nodes[p]
        };
        // Unlink the subtree from its parent, then delete it cut by cut,
        // dropping every contained atom's usage count.
        let mut pnode = match self.subgraphs.remove(&p) {
            Some(n) => n,
            None => {
                proof {
                    assert(false);
                }
                Subgraph::new(0)
            },
        };
        pnode.remove_child(target);
        self.subgraphs.insert(p, pnode);
        proof {
            assert(!dropped.contains(p));
            lemma_no_dup_remove_value(g.nodes[p].subgraphs, target);
            assert forall|a: Seq<char>| #[trigger] cuts_with_in(self@.nodes, a)
                =~= cuts_with_in(g.nodes, a) by {
                assert forall|x: CutId| cuts_with_in(self@.nodes, a).contains(x)
                    <==> cuts_with_in(g.nodes, a).contains(x) by {
                    if x == p && g.nodes.dom().contains(p) {
                        assert(self@.nodes[p].atoms == g.nodes[p].atoms);
                    }
                }
            }
            assert(self@.usage == g.usage);
            assert forall|a: Seq<char>| #[trigger] self@.usage.contains_key(a)
                implies self@.usage[a] == cuts_with_in(self@.nodes, a).len()
                    && self@.usage[a] >= 1 by {
                assert(g.usage.contains_key(a));
                assert(cuts_with_in(self@.nodes, a) =~= cuts_with_in(g.nodes, a));
            }
            assert forall|a: Seq<char>| !(#[trigger] self@.usage.contains_key(a))
                implies cuts_with_in(self@.nodes, a) =~= Set::<CutId>::empty() by {
                assert(!g.usage.contains_key(a));
                assert(cuts_with_in(self@.nodes, a) =~= cuts_with_in(g.nodes, a));
            }
        }
        let sn = subtree.len();
        for k in 0..sn
            invariant
                sn == dropped.len(),
                subtree@ == dropped,
                dropped.no_duplicates(),
                wf(g),
                g.nodes.contains_key(target),
                target != g.root,
                g.parent.contains_key(target),
                g.parent[target] == p,
                g.nodes.contains_key(p),
                !dropped.contains(p),
                padj == (SubgraphView {
                    subgraphs: g.nodes[p].subgraphs.remove_value(target),
                    ..g.nodes[p]
                }),
                forall|x: CutId| #[trigger] dropped.contains(x)
                    <==> g.nodes.contains_key(x) && in_subtree(g, x, target),
                self@.root == g.root,
                self@.usage == usage_map_of(self.known_atoms@),
                forall|x: CutId| #[trigger] self@.nodes.contains_key(x)
                    <==> g.nodes.contains_key(x) && !dropped.take(k as int).contains(x),
                forall|x: CutId| #[trigger] self@.nodes.contains_key(x)
                    ==> self@.nodes[x] == (if x == p {
                        padj
                    } else {
                        g.nodes[x]
                    }),
                forall|x: CutId| #[trigger] self@.parent.contains_key(x)
                    <==> g.parent.contains_key(x) && !dropped.take(k as int).contains(x),
                forall|x: CutId| #[trigger] self@.parent.contains_key(x)
                    ==> self@.parent[x] == g.parent[x],
                self@.nodes.dom().finite(),
                atom_names(self.known_atoms@.map_values(|e: (Atom, usize)| e.0)).no_duplicates(),
                forall|i: int| 0 <= i < self.known_atoms@.len()
                    ==> (#[trigger] self.known_atoms@[i]).1 >= 1,
                usage_wf(self@.nodes, self@.usage),
        {
            let x = subtree[k];
            proof {
                assert(dropped[k as int] == x);
                assert(dropped.contains(x));
                assert(!dropped.take(k as int).contains(x)) by {
                    if dropped.take(k as int).contains(x) {
                        let kk = choose|kk: int|
                            0 <= kk < k && #[trigger] dropped.take(k as int)[kk] == x;
                        assert(dropped[kk] == dropped[k as int]);
                    }
                }
                assert(self@.nodes.contains_key(x));
                assert(x != p);
                assert(x != g.root) by {
                    if x == g.root && x != target {
                        assert(is_ancestor_of(g, target, g.root));
                    }
                }
                assert(self@.parent.contains_key(x)) by {
                    assert(g.parent.contains_key(x));
                }
            }
            let ghost nodes_before = self@.nodes;
            let ghost parent_before = self@.parent;
            let node = match self.subgraphs.remove(&x) {
                Some(n) => n,
                None => {
                    proof {
                        assert(false);
                    }
                    Subgraph::new(0)
                },
            };
            self.subgraph_parents.remove(&x);
            proof {
                assert(self@.nodes.dom() =~= nodes_before.dom().remove(x));
                assert(atom_names(node.atoms@) == g.nodes[x].atoms);
                assert(g.nodes[x].atoms.no_duplicates());
                // Removing the cut leaves each of its atoms counted once too
                // often; the helper below repairs the counts.
                assert forall|b: Seq<char>| true
                    implies #[trigger] cuts_with_in(self@.nodes, b) =~= (if g.nodes[x].atoms.contains(b) {
                        cuts_with_in(nodes_before, b).remove(x)
                    } else {
                        cuts_with_in(nodes_before, b)
                    }) by {
                    assert forall|y: CutId| cuts_with_in(self@.nodes, b).contains(y)
                        <==> (if g.nodes[x].atoms.contains(b) {
                        cuts_with_in(nodes_before, b).remove(x).contains(y)
                    } else {
                        cuts_with_in(nodes_before, b).contains(y)
                    }) by {
                        if y != x && nodes_before.dom().contains(y) {
                            assert(self@.nodes[y] == nodes_before[y]);
                        }
                        if y == x {
                            assert(nodes_before[x] == g.nodes[x]);
                        }
                    }
                }
                assert forall|b: Seq<char>| #[trigger] self@.usage.contains_key(b)
                    implies self@.usage[b] == cuts_with_in(self@.nodes, b).len()
                        + (if atom_names(node.atoms@).contains(b) {
                        1nat
                    } else {
                        0nat
                    }) && self@.usage[b] >= 1 by {
                    if g.nodes[x].atoms.contains(b) {
                        assert(cuts_with_in(nodes_before, b).contains(x));
                        vstd::set_lib::lemma_len_subset(
                            cuts_with_in(nodes_before, b),
                            nodes_before.dom(),
                        );
                        assert(cuts_with_in(self@.nodes, b).len()
                            == cuts_with_in(nodes_before, b).len() - 1);
                    }
                }
                assert forall|b: Seq<char>| !(#[trigger] self@.usage.contains_key(b))
                    implies cuts_with_in(self@.nodes, b) =~= Set::<CutId>::empty()
                        && !atom_names(node.atoms@).contains(b) by {
                    assert(cuts_with_in(nodes_before, b) =~= Set::<CutId>::empty());
                    if atom_names(node.atoms@).contains(b) {
                        assert(cuts_with_in(nodes_before, b).contains(x));
                    }
                }
                assert(usage_wf_except(self@.nodes, self@.usage, atom_names(node.atoms@)));
            }
            let ghost cur_nodes = self@.nodes;
            remove_atoms_usage(&mut self.known_atoms, &node.atoms, Ghost(cur_nodes));
            proof {
                assert(self@.nodes == cur_nodes);
                assert(self@.nodes.dom() =~= nodes_before.dom().remove(x));
                assert(self@.parent =~= parent_before.remove(x));
                assert forall|y: CutId| true implies (dropped.take(k + 1).contains(y)
                    <==> dropped.take(k as int).contains(y) || y == x) by {
                    assert(dropped.take(k + 1) == dropped.take(k as int).push(dropped[k as int]));
                    if dropped.take(k + 1).contains(y) {
                        let kk = choose|kk: int|
                            0 <= kk < k + 1 && #[trigger] dropped.take(k + 1)[kk] == y;
                        if kk < k {
                            assert(dropped.take(k as int)[kk] == y);
                        }
                    } else {
                        if dropped.take(k as int).contains(y) {
                            let kk = choose|kk: int|
                                0 <= kk < k && #[trigger] dropped.take(k as int)[kk] == y;
                            assert(dropped.take(k + 1)[kk] == y);
                        }
                        assert(y != x) by {
                            assert(dropped.take(k + 1)[k as int] == x);
                        }
                    }
                }
                assert forall|y: CutId| #[trigger] self@.nodes.contains_key(y)
                    <==> g.nodes.contains_key(y) && !dropped.take(k + 1).contains(y) by {
                    assert(nodes_before.contains_key(y) <==> g.nodes.contains_key(y)
                        && !dropped.take(k as int).contains(y));
                    assert(self@.nodes.contains_key(y) <==> nodes_before.contains_key(y)
                        && y != x);
                }
                assert forall|y: CutId| #[trigger] self@.parent.contains_key(y)
                    <==> g.parent.contains_key(y) && !dropped.take(k + 1).contains(y) by {
                    assert(parent_before.contains_key(y) <==> g.parent.contains_key(y)
                        && !dropped.take(k as int).contains(y));
                    assert(self@.parent.contains_key(y) <==> parent_before.contains_key(y)
                        && y != x);
                }
                assert forall|y: CutId| #[trigger] self@.nodes.contains_key(y)
                    implies self@.nodes[y] == (if y == p {
                        padj
                    } else {
                        g.nodes[y]
                    }) by {
                    assert(nodes_before.contains_key(y));
                    assert(self@.nodes[y] == nodes_before[y]);
                }
            }
        }
        proof {
            assert(dropped.take(sn as int) =~= dropped);
            // What remains is the old tree without the subtree of `target`,
            // which satisfies the invariants again.
            let h = self@;
            assert(h.nodes.contains_key(g.root)) by {
                assert(!in_subtree(g, g.root, target));
            }
            assert(h.nodes[h.root].level == 0);
            assert(!h.parent.contains_key(h.root));
            assert forall|x: CutId| #[trigger] h.parent.contains_key(x) implies {
                &&& h.nodes.contains_key(h.parent[x])
                &&& h.nodes[h.parent[x]].subgraphs.contains(x)
                &&& h.nodes[x].level == h.nodes[h.parent[x]].level + 1
            } by {
                let px = g.parent[x];
                assert(g.parent.contains_key(x));
                assert(h.parent[x] == px);
                assert(g.nodes[px].subgraphs.contains(x));
                assert(!dropped.contains(x));
                assert(!in_subtree(g, x, target));
                assert(!in_subtree(g, px, target)) by {
                    if in_subtree(g, px, target) {
                        assert(is_ancestor_of(g, target, x));
                    }
                }
                assert(!dropped.contains(px));
                assert(h.nodes.contains_key(px));
                assert(h.nodes.contains_key(x));
                assert(x != target);
                if px == p {
                    assert(h.nodes[px] == padj);
                    lemma_no_dup_remove_value(g.nodes[p].subgraphs, target);
                    assert(h.nodes[p].subgraphs.contains(x));
                } else {
                    assert(h.nodes[px] == g.nodes[px]);
                }
                assert(h.nodes[x].level == g.nodes[x].level);
                assert(h.nodes[px].level == g.nodes[px].level);
            }
            assert forall|q: CutId, i: int|
                h.nodes.contains_key(q) && 0 <= i < h.nodes[q].subgraphs.len()
                implies {
                    let c = #[trigger] h.nodes[q].subgraphs[i];
                    &&& h.nodes.contains_key(c)
                    &&& c != h.root
                    &&& h.parent.contains_key(c)
                    &&& h.parent[c] == q
                } by {
                let c = h.nodes[q].subgraphs[i];
                assert(h.nodes[q].subgraphs.contains(c));
                assert(!dropped.contains(q));
                assert(!in_subtree(g, q, target));
                assert(g.nodes.contains_key(q));
                assert(h.nodes[q] == (if q == p { padj } else { g.nodes[q] }));
                assert(g.nodes[q].subgraphs.contains(c)) by {
                    if q == p {
                        lemma_no_dup_remove_value(g.nodes[p].subgraphs, target);
                    }
                }
                lemma_child_parent(g, q, c);
                assert(c != target) by {
                    if c == target {
                        assert(g.parent[target] == q);
                        if q == p {
                            lemma_no_dup_remove_value(g.nodes[p].subgraphs, target);
                            assert(!g.nodes[p].subgraphs.remove_value(target).contains(target));
                        }
                    }
                }
                assert(q != target) by {
                    if q == target {
                        assert(dropped.contains(q));
                    }
                }
                assert(!in_subtree(g, c, target)) by {
                    if is_ancestor_of(g, target, c) {
                        assert(c != g.root);
                        assert(g.parent[c] == q);
                        assert(is_ancestor_of(g, target, q));
                    }
                }
                assert(!dropped.contains(c));
                assert(h.nodes.contains_key(c));
                assert(h.parent.contains_key(c));
                assert(h.parent[c] == g.parent[c]);
            }
            assert forall|id: CutId| #[trigger] h.nodes.contains_key(id) implies {
                &&& h.nodes[id].subgraphs.no_duplicates()
                &&& h.nodes[id].atoms.no_duplicates()
            } by {
                if id == p {
                    lemma_no_dup_remove_value(g.nodes[p].subgraphs, target);
                }
            }
            assert(h.nodes.dom().finite());
            assert(wf(h));
        }
        Ok(())
    }
}

/// The view of `g` after re-parenting the cut `t` under the cut `d`: `t`
/// leaves its old parent's child list, joins `d`'s, its parent entry points
/// to `d`, and the whole subtree of `t` is re-leveled.
pub open spec fn move_spec(g: GraphView, t: CutId, d: CutId) -> GraphView {
    let s = g.parent[t];
    GraphView {
        nodes: Map::new(
            |id: CutId| g.nodes.contains_key(id),
            |id: CutId| SubgraphView {
                level: if in_subtree(g, id, t) {
                    (g.nodes[id].level - g.nodes[t].level + g.nodes[d].level + 1) as nat
                } else {
                    g.nodes[id].level
                },
                atoms: g.nodes[id].atoms,
                subgraphs: if id == s && id == d {
                    g.nodes[id].subgraphs.remove_value(t).push(t)
                } else if id == s {
                    g.nodes[id].subgraphs.remove_value(t)
                } else if id == d {
                    g.nodes[id].subgraphs.push(t)
                } else {
                    g.nodes[id].subgraphs
                },
            },
        ),
        parent: g.parent.insert(t, d),
        ..g
    }
}

/// Re-parenting a non-root cut under a cut outside its own subtree
/// preserves the tree invariants.
pub proof fn lemma_move_spec_wf(g: GraphView, t: CutId, d: CutId)
    requires
        wf(g),
        g.nodes.contains_key(t),
        t != g.root,
        g.nodes.contains_key(d),
        !in_subtree(g, d, t),
    ensures
        wf(move_spec(g, t, d)),
{
    broadcast use vstd::seq_lib::lemma_seq_contains_after_push;

    let g2 = move_spec(g, t, d);
    let s = g.parent[t];
    assert(g.parent.contains_key(t));
    assert(g.nodes.contains_key(s));
    assert(g.nodes[s].subgraphs.contains(t));
    lemma_no_dup_remove_value(g.nodes[s].subgraphs, t);
    // t is not its own strict ancestor, and is no child of any cut but s.
    assert(!is_ancestor_of(g, t, t)) by {
        if is_ancestor_of(g, t, t) {
            lemma_ancestor_level(g, t, t);
        }
    }
    // Subtree membership steps down through parents; outside cuts keep
    // their levels.
    assert forall|x: CutId|
        g.parent.contains_key(x) && x != t && in_subtree(g, x, t)
            implies in_subtree(g, g.parent[x], t)
                && g.nodes[x].level > g.nodes[t].level by {
        lemma_ancestor_level(g, t, x);
    }
    assert(g2.nodes.dom() =~= g.nodes.dom());
    // The root lies outside the subtree of t.
    assert(!in_subtree(g, g.root, t)) by {
        if is_ancestor_of(g, t, g.root) {
        }
    }
    assert(g2.nodes[g2.root].level == 0);
    assert(!g2.parent.contains_key(g2.root));
    assert(g2.parent.dom() =~= g.parent.dom());
    // Parent links, child lists and levels.
    assert forall|x: CutId| #[trigger] g2.parent.contains_key(x) implies {
        &&& g2.nodes.contains_key(g2.parent[x])
        &&& g2.nodes[g2.parent[x]].subgraphs.contains(x)
        &&& g2.nodes[x].level == g2.nodes[g2.parent[x]].level + 1
    } by {
        if x == t {
            assert(g2.parent[t] == d);
            assert(g2.nodes[d].subgraphs.contains(t));
            assert(!in_subtree(g, d, t));
            assert(g2.nodes[t].level == g.nodes[d].level + 1);
        } else {
            let p = g.parent[x];
            assert(g2.parent[x] == p);
            assert(g.nodes[p].subgraphs.contains(x));
            assert(g2.nodes[p].subgraphs.contains(x));
            if in_subtree(g, x, t) {
                assert(in_subtree(g, p, t));
                assert(g.nodes[x].level > g.nodes[t].level);
                assert(g.nodes[p].level >= g.nodes[t].level) by {
                    if p != t {
                        lemma_ancestor_level(g, t, p);
                    }
                }
            } else {
                assert(!in_subtree(g, p, t)) by {
                    if in_subtree(g, p, t) {
                        assert(is_ancestor_of(g, t, x));
                    }
                }
            }
        }
    }
    assert forall|p: CutId, i: int|
        g2.nodes.contains_key(p) && 0 <= i < g2.nodes[p].subgraphs.len()
        implies {
            let c = #[trigger] g2.nodes[p].subgraphs[i];
            &&& g2.nodes.contains_key(c)
            &&& c != g2.root
            &&& g2.parent.contains_key(c)
            &&& g2.parent[c] == p
        } by {
        let c = g2.nodes[p].subgraphs[i];
        assert(g2.nodes[p].subgraphs.contains(c));
        if c == t {
            assert(p == d) by {
                if p != d {
                    if p == s {
                        assert(g.nodes[s].subgraphs.remove_value(t).contains(t));
                    } else {
                        assert(g.nodes[p].subgraphs.contains(t));
                        lemma_child_parent(g, p, t);
                    }
                }
            }
        } else {
            assert(g.nodes[p].subgraphs.contains(c)) by {
                if p == s && p == d {
                    assert(g.nodes[p].subgraphs.remove_value(t).push(t).contains(c));
                    assert(g.nodes[p].subgraphs.remove_value(t).contains(c));
                } else if p == s {
                    assert(g.nodes[p].subgraphs.remove_value(t).contains(c));
                }
            }
            lemma_child_parent(g, p, c);
        }
    }
    // Duplicate-freedom of the changed child lists.
    assert forall|id: CutId| #[trigger] g2.nodes.contains_key(id) implies {
        &&& g2.nodes[id].subgraphs.no_duplicates()
        &&& g2.nodes[id].atoms.no_duplicates()
    } by {
        if id == s && id == d {
            lemma_no_dup_push(g.nodes[id].subgraphs.remove_value(t), t);
        } else if id == d {
            assert(!g.nodes[d].subgraphs.contains(t)) by {
                if g.nodes[d].subgraphs.contains(t) {
                    lemma_child_parent(g, d, t);
                }
            }
            lemma_no_dup_push(g.nodes[d].subgraphs, t);
        }
    }
    // Atom sets are untouched, so usage is untouched.
    assert forall|a: Seq<char>| #[trigger] cuts_with(g2, a) =~= cuts_with(g, a) by {
        assert forall|x: CutId| cuts_with(g2, a).contains(x)
            <==> cuts_with(g, a).contains(x) by {
            if g.nodes.dom().contains(x) {
                assert(g2.nodes[x].atoms == g.nodes[x].atoms);
            }
        }
    }
    assert forall|a: Seq<char>| #[trigger] g2.usage.contains_key(a)
        implies g2.usage[a] == cuts_with(g2, a).len() && g2.usage[a] >= 1 by {
        assert(cuts_with(g2, a) =~= cuts_with(g, a));
    }
    assert forall|a: Seq<char>| !(#[trigger] g2.usage.contains_key(a))
        implies cuts_with(g2, a) =~= Set::<CutId>::empty() by {
        assert(cuts_with(g2, a) =~= cuts_with(g, a));
    }
}

/// The view of `g` after deleting the empty cut `t`: it leaves the node map,
/// the parent map, and its parent's child list.
pub open spec fn remove_leaf_spec(g: GraphView, t: CutId) -> GraphView {
    let p = g.parent[t];
    GraphView {
        nodes: g.nodes.insert(
            p,
            SubgraphView { subgraphs: g.nodes[p].subgraphs.remove_value(t), ..g.nodes[p] },
        ).remove(t),
        parent: g.parent.remove(t),
        ..g
    }
}

/// Deleting an empty non-root cut preserves the tree invariants.
pub proof fn lemma_remove_leaf_spec_wf(g: GraphView, t: CutId)
    requires
        wf(g),
        g.nodes.contains_key(t),
        t != g.root,
        g.nodes[t].atoms.len() == 0,
        g.nodes[t].subgraphs.len() == 0,
    ensures
        wf(remove_leaf_spec(g, t)),
{
    let g2 = remove_leaf_spec(g, t);
    let p = g.parent[t];
    assert(g.parent.contains_key(t));
    assert(g.nodes.contains_key(p));
    assert(g.nodes[p].subgraphs.contains(t));
    assert(p != t) by {
        assert(g.nodes[t].level == g.nodes[p].level + 1);
    }
    lemma_no_dup_remove_value(g.nodes[p].subgraphs, t);
    assert(g2.nodes.dom() =~= g.nodes.dom().remove(t));
    assert(g2.parent.dom() =~= g.parent.dom().remove(t));
    assert forall|x: CutId| #[trigger] g2.parent.contains_key(x) implies {
        &&& g2.nodes.contains_key(g2.parent[x])
        &&& g2.nodes[g2.parent[x]].subgraphs.contains(x)
        &&& g2.nodes[x].level == g2.nodes[g2.parent[x]].level + 1
    } by {
        let px = g.parent[x];
        assert(g.nodes[px].subgraphs.contains(x));
        assert(px != t) by {
            if px == t {
                assert(g.nodes[t].subgraphs.contains(x));
            }
        }
        if px == p {
            assert(g2.nodes[p].subgraphs.contains(x));
        }
    }
    assert forall|q: CutId, i: int|
        g2.nodes.contains_key(q) && 0 <= i < g2.nodes[q].subgraphs.len()
        implies {
            let c = #[trigger] g2.nodes[q].subgraphs[i];
            &&& g2.nodes.contains_key(c)
            &&& c != g2.root
            &&& g2.parent.contains_key(c)
            &&& g2.parent[c] == q
        } by {
        let c = g2.nodes[q].subgraphs[i];
        assert(g2.nodes[q].subgraphs.contains(c));
        if q == p {
            assert(g.nodes[p].subgraphs.contains(c) && c != t);
            lemma_child_parent(g, p, c);
        } else {
            assert(g.nodes[q].subgraphs.contains(c));
            lemma_child_parent(g, q, c);
            assert(c != t) by {
                if c == t {
                    assert(g.parent[t] == q);
                }
            }
        }
    }
    assert forall|id: CutId| #[trigger] g2.nodes.contains_key(id) implies {
        &&& g2.nodes[id].subgraphs.no_duplicates()
        &&& g2.nodes[id].atoms.no_duplicates()
    } by {}
    assert forall|a: Seq<char>| #[trigger] cuts_with_in(g2.nodes, a) =~= cuts_with(g, a) by {
        assert forall|x: CutId| cuts_with_in(g2.nodes, a).contains(x)
            <==> cuts_with(g, a).contains(x) by {
            if x == t {
                assert(!g.nodes[t].atoms.contains(a));
            } else if x == p && g.nodes.dom().contains(x) {
                assert(g2.nodes[p].atoms == g.nodes[p].atoms);
            }
        }
    }
    assert forall|a: Seq<char>| #[trigger] g2.usage.contains_key(a)
        implies g2.usage[a] == cuts_with(g2, a).len() && g2.usage[a] >= 1 by {
        assert(cuts_with_in(g2.nodes, a) =~= cuts_with(g, a));
    }
    assert forall|a: Seq<char>| !(#[trigger] g2.usage.contains_key(a))
        implies cuts_with(g2, a) =~= Set::<CutId>::empty() by {
        assert(cuts_with_in(g2.nodes, a) =~= cuts_with(g, a));
    }
}

/// Drops one usage count for every atom of a removed cut.
fn remove_atoms_usage(
    v: &mut Vec<(Atom, usize)>,
    atoms: &Vec<Atom>,
    Ghost(nodes): Ghost<Map<CutId, SubgraphView>>,
)
    requires
        atom_names(old(v)@.map_values(|e: (Atom, usize)| e.0)).no_duplicates(),
        forall|i: int| 0 <= i < old(v)@.len() ==> (#[trigger] old(v)@[i]).1 >= 1,
        atom_names(atoms@).no_duplicates(),
        nodes.dom().finite(),
        usage_wf_except(nodes, usage_map_of(old(v)@), atom_names(atoms@)),
    ensures
        atom_names(final(v)@.map_values(|e: (Atom, usize)| e.0)).no_duplicates(),
        forall|i: int| 0 <= i < final(v)@.len() ==> (#[trigger] final(v)@[i]).1 >= 1,
        usage_wf(nodes, usage_map_of(final(v)@)),
{
    let ghost names = atom_names(atoms@);
    let m = atoms.len();
    proof {
        assert(names.skip(0) =~= names);
    }
    for i in 0..m
        invariant
            m == atoms@.len(),
            names == atom_names(atoms@),
            names.no_duplicates(),
            nodes.dom().finite(),
            atom_names(v@.map_values(|e: (Atom, usize)| e.0)).no_duplicates(),
            forall|k: int| 0 <= k < v@.len() ==> (#[trigger] v@[k]).1 >= 1,
            usage_wf_except(nodes, usage_map_of(v@), names.skip(i as int)),
    {
        let a = &atoms[i];
        let ghost u = usage_map_of(v@);
        let ghost extra = names.skip(i as int);
        proof {
            assert(extra[0] == a@);
            assert(extra.contains(a@));
            assert(u.contains_key(a@)) by {
                if !u.contains_key(a@) {
                    assert(!extra.contains(a@));
                }
            }
            // The count includes the one being dropped.
            assert(u[a@] == cuts_with_in(nodes, a@).len() + 1) by {
                assert(u.contains_key(a@));
            }
        }
        decrement_usage(v, a);
        proof {
            let u2 = usage_map_of(v@);
            let extra2 = names.skip(i + 1);
            assert(extra =~= seq![a@] + extra2);
            assert(!extra2.contains(a@)) by {
                if extra2.contains(a@) {
                    let k = choose|k: int| 0 <= k < extra2.len() && extra2[k] == a@;
                    assert(names[i + 1 + k] == a@);
                    assert(names[i as int] == a@);
                }
            }
            assert forall|b: Seq<char>| b != a@
                implies (extra2.contains(b) <==> extra.contains(b)) by {
                if extra2.contains(b) {
                    let k = choose|k: int| 0 <= k < extra2.len() && extra2[k] == b;
                    assert(extra[k + 1] == b);
                } else if extra.contains(b) {
                    let k = choose|k: int| 0 <= k < extra.len() && extra[k] == b;
                    assert(k != 0);
                    assert(extra2[k - 1] == b);
                }
            }
            assert forall|b: Seq<char>| #[trigger] u2.contains_key(b)
                implies u2[b] == cuts_with_in(nodes, b).len() + (if extra2.contains(b) {
                    1nat
                } else {
                    0nat
                }) && u2[b] >= 1 by {
                if b == a@ {
                    assert(u[a@] != 1 && u2[a@] == u[a@] - 1);
                } else {
                    assert(u.contains_key(b));
                }
            }
            assert forall|b: Seq<char>| !(#[trigger] u2.contains_key(b))
                implies cuts_with_in(nodes, b) =~= Set::<CutId>::empty()
                    && !extra2.contains(b) by {
                if b == a@ {
                    assert(u[a@] == 1);
                    assert(cuts_with_in(nodes, a@).len() == 0);
                    nodes.dom().lemma_len_filter(|id: CutId| nodes[id].atoms.contains(a@));
                    assert(cuts_with_in(nodes, a@).finite());
                    assert(cuts_with_in(nodes, a@) =~= Set::<CutId>::empty());
                } else {
                    assert(!u.contains_key(b));
                }
            }
        }
    }
    proof {
        let extra = names.skip(m as int);
        assert(extra =~= Seq::<Seq<char>>::empty());
        assert forall|a: Seq<char>| #[trigger] usage_map_of(v@).contains_key(a)
            implies usage_map_of(v@)[a] == cuts_with_in(nodes, a).len()
                && usage_map_of(v@)[a] >= 1 by {
            assert(!extra.contains(a));
        }
    }
}

/// Every key of `usage_map_of(s)` is the name of some entry of `s`, and the
/// other way round.
proof fn lemma_usage_map_membership(s: Seq<(Atom, usize)>)
    ensures
        forall|a: Seq<char>| #[trigger] usage_map_of(s).contains_key(a)
            <==> exists|i: int| 0 <= i < s.len() && (#[trigger] s[i]).0@ == a,
    decreases s.len(),
{
    if s.len() > 0 {
        let d = s.drop_last();
        lemma_usage_map_membership(d);
        assert(usage_map_of(s) == usage_map_of(d).insert(s.last().0@, s.last().1 as nat));
        assert forall|a: Seq<char>| #[trigger] usage_map_of(s).contains_key(a)
            implies exists|i: int| 0 <= i < s.len() && (#[trigger] s[i]).0@ == a by {
            if s.last().0@ == a {
                assert(s[s.len() - 1].0@ == a);
            } else {
                assert(usage_map_of(d).contains_key(a));
                let i = choose|i: int| 0 <= i < d.len() && (#[trigger] d[i]).0@ == a;
                assert(s[i] == d[i]);
                assert(s[i].0@ == a);
            }
        }
        assert forall|a: Seq<char>|
            (exists|i: int| 0 <= i < s.len() && (#[trigger] s[i]).0@ == a)
            implies #[trigger] usage_map_of(s).contains_key(a) by {
            let i = choose|i: int| 0 <= i < s.len() && (#[trigger] s[i]).0@ == a;
            if i < s.len() - 1 {
                assert(d[i] == s[i]);
                assert(d[i].0@ == a);
                assert(usage_map_of(d).contains_key(a));
            } else {
                assert(s.last().0@ == a);
            }
        }
    }
}

/// With entry names unique, the usage map sends each entry's name to its count.
proof fn lemma_usage_map_value(s: Seq<(Atom, usize)>, i: int)
    requires
        atom_names(s.map_values(|e: (Atom, usize)| e.0)).no_duplicates(),
        0 <= i < s.len(),
    ensures
        usage_map_of(s).contains_key(s[i].0@),
        usage_map_of(s)[s[i].0@] == s[i].1 as nat,
    decreases s.len(),
{
    let d = s.drop_last();
    assert(usage_map_of(s) == usage_map_of(d).insert(s.last().0@, s.last().1 as nat));
    if i == s.len() - 1 {
    } else {
        assert(atom_names(d.map_values(|e: (Atom, usize)| e.0)) =~= atom_names(
            s.map_values(|e: (Atom, usize)| e.0),
        ).drop_last());
        lemma_usage_map_value(d, i);
        assert(d[i] == s[i]);
        let names = atom_names(s.map_values(|e: (Atom, usize)| e.0));
        assert(names[i] == s[i].0@ && names[s.len() - 1] == s.last().0@);
        assert(s[i].0@ != s.last().0@);
    }
}

/// With entry names unique, updating the entry at `i` to a pair with the same
/// name updates the usage map at that name.
proof fn lemma_usage_map_update(s: Seq<(Atom, usize)>, i: int, e: (Atom, usize))
    requires
        atom_names(s.map_values(|q: (Atom, usize)| q.0)).no_duplicates(),
        0 <= i < s.len(),
        e.0@ == s[i].0@,
    ensures
        usage_map_of(s.update(i, e)) =~= usage_map_of(s).insert(e.0@, e.1 as nat),
    decreases s.len(),
{
    let d = s.drop_last();
    let u = s.update(i, e);
    assert(usage_map_of(s) == usage_map_of(d).insert(s.last().0@, s.last().1 as nat));
    if i == s.len() - 1 {
        assert(u.drop_last() =~= d);
        assert(u.last() == e);
        assert(usage_map_of(u) == usage_map_of(d).insert(e.0@, e.1 as nat));
        assert(usage_map_of(d).insert(e.0@, e.1 as nat) =~= usage_map_of(d).insert(
            s.last().0@,
            s.last().1 as nat,
        ).insert(e.0@, e.1 as nat));
    } else {
        assert(atom_names(d.map_values(|q: (Atom, usize)| q.0)) =~= atom_names(
            s.map_values(|q: (Atom, usize)| q.0),
        ).drop_last());
        assert(d[i] == s[i]);
        lemma_usage_map_update(d, i, e);
        assert(u.drop_last() =~= d.update(i, e));
        assert(u.last() == s.last());
        assert(usage_map_of(u) == usage_map_of(d.update(i, e)).insert(
            s.last().0@,
            s.last().1 as nat,
        ));
        let names = atom_names(s.map_values(|q: (Atom, usize)| q.0));
        assert(names[i] == s[i].0@ && names[s.len() - 1] == s.last().0@);
        assert(e.0@ != s.last().0@);
    }
}

/// With entry names unique, removing the entry at `i` removes its name from
/// the usage map.
proof fn lemma_usage_map_remove(s: Seq<(Atom, usize)>, i: int)
    requires
        atom_names(s.map_values(|q: (Atom, usize)| q.0)).no_duplicates(),
        0 <= i < s.len(),
    ensures
        usage_map_of(s.remove(i)) =~= usage_map_of(s).remove(s[i].0@),
    decreases s.len(),
{
    let d = s.drop_last();
    let u = s.remove(i);
    let names = atom_names(s.map_values(|q: (Atom, usize)| q.0));
    assert(usage_map_of(s) == usage_map_of(d).insert(s.last().0@, s.last().1 as nat));
    assert(atom_names(d.map_values(|q: (Atom, usize)| q.0)) =~= names.drop_last());
    if i == s.len() - 1 {
        assert(u =~= d);
        lemma_usage_map_membership(d);
        assert forall|j: int| 0 <= j < d.len() implies (#[trigger] d[j]).0@ != s.last().0@ by {
            assert(names[j] == d[j].0@ && names[s.len() - 1] == s.last().0@);
        }
        assert(!usage_map_of(d).contains_key(s.last().0@));
    } else {
        assert(d[i] == s[i]);
        lemma_usage_map_remove(d, i);
        assert(u.drop_last() =~= d.remove(i));
        assert(u.last() == s.last());
        assert(usage_map_of(u) == usage_map_of(d.remove(i)).insert(
            s.last().0@,
            s.last().1 as nat,
        ));
        assert(names[i] == s[i].0@ && names[s.len() - 1] == s.last().0@);
        assert(s[i].0@ != s.last().0@);
    }
}

/// The index of the entry for `atom`, if one exists.
fn find_known_index(v: &Vec<(Atom, usize)>, atom: &Atom) -> (r: Option<usize>)
    ensures
        match r {
            Some(i) => i < v@.len() && v@[i as int].0@ == atom@,
            None => forall|j: int| 0 <= j < v@.len() ==> (#[trigger] v@[j]).0@ != atom@,
        },
{
    let n = v.len();
    for i in 0..n
        invariant
            n == v.len(),
            forall|j: int| 0 <= j < i ==> (#[trigger] v@[j]).0@ != atom@,
    {
        if v[i].0.eq(atom) {
            return Some(i);
        }
    }
    None
}

/// Lowers the usage count of `atom` by one; when the count reaches zero the
/// entry leaves the vector and its atom is handed back.
fn decrement_usage(v: &mut Vec<(Atom, usize)>, atom: &Atom) -> (freed: Option<Atom>)
    requires
        atom_names(old(v)@.map_values(|e: (Atom, usize)| e.0)).no_duplicates(),
        forall|i: int| 0 <= i < old(v)@.len() ==> (#[trigger] old(v)@[i]).1 >= 1,
        usage_map_of(old(v)@).contains_key(atom@),
    ensures
        atom_names(final(v)@.map_values(|e: (Atom, usize)| e.0)).no_duplicates(),
        forall|i: int| 0 <= i < final(v)@.len() ==> (#[trigger] final(v)@[i]).1 >= 1,
        usage_map_of(final(v)@) =~= (if usage_map_of(old(v)@)[atom@] == 1 {
            usage_map_of(old(v)@).remove(atom@)
        } else {
            usage_map_of(old(v)@).insert(atom@, (usage_map_of(old(v)@)[atom@] - 1) as nat)
        }),
        match freed {
            Some(x) => x@ == atom@ && usage_map_of(old(v)@)[atom@] == 1,
            None => usage_map_of(old(v)@)[atom@] != 1,
        },
{
    proof {
        lemma_usage_map_membership(v@);
    }
    let idx = match find_known_index(v, atom) {
        Some(i) => i,
        None => {
            proof {
                assert(false);
            }
            0
        },
    };
    let c = v[idx].1;
    proof {
        lemma_usage_map_value(v@, idx as int);
    }
    if c == 1 {
        let ghost oldv = v@;
        let entry = v.remove(idx);
        proof {
            lemma_usage_map_remove(oldv, idx as int);
            let oldnames = atom_names(oldv.map_values(|e: (Atom, usize)| e.0));
            let names = atom_names(v@.map_values(|e: (Atom, usize)| e.0));
            assert(names =~= oldnames.remove(idx as int));
            oldnames.remove_ensures(idx as int);
            assert forall|p: int, q: int| 0 <= p < q < names.len()
                implies names[p] != names[q] by {
                let sp: int = if p < idx { p } else { p + 1 };
                let sq: int = if q < idx { q } else { q + 1 };
                assert(names[p] == oldnames[sp] && names[q] == oldnames[sq]);
            }
        }
        Some(entry.0)
    } else {
        let a2 = v[idx].0.clone();
        let ghost oldv = v@;
        v.set(idx, (a2, c - 1));
        proof {
            lemma_usage_map_update(oldv, idx as int, v@[idx as int]);
            assert(atom_names(v@.map_values(|e: (Atom, usize)| e.0)) =~= atom_names(
                oldv.map_values(|e: (Atom, usize)| e.0),
            ));
        }
        None
    }
}

/// Raises the usage count of `atom` by one, adding an entry at one if the
/// name was not yet live.
fn bump_usage(v: &mut Vec<(Atom, usize)>, atom: &Atom)
    requires
        atom_names(old(v)@.map_values(|e: (Atom, usize)| e.0)).no_duplicates(),
        forall|i: int| 0 <= i < old(v)@.len() ==> (#[trigger] old(v)@[i]).1 >= 1,
        forall|i: int|
            0 <= i < old(v)@.len() && (#[trigger] old(v)@[i]).0@ == atom@
                ==> old(v)@[i].1 < usize::MAX,
    ensures
        atom_names(final(v)@.map_values(|e: (Atom, usize)| e.0)).no_duplicates(),
        forall|i: int| 0 <= i < final(v)@.len() ==> (#[trigger] final(v)@[i]).1 >= 1,
        usage_map_of(final(v)@) =~= usage_map_of(old(v)@).insert(
            atom@,
            if usage_map_of(old(v)@).contains_key(atom@) {
                (usage_map_of(old(v)@)[atom@] + 1) as nat
            } else {
                1nat
            },
        ),
{
    proof {
        lemma_usage_map_membership(v@);
    }
    match find_known_index(v, atom) {
        Some(i) => {
            let c = v[i].1;
            proof {
                lemma_usage_map_value(v@, i as int);
            }
            let a2 = v[i].0.clone();
            let ghost oldv = v@;
            v.set(i, (a2, c + 1));
            proof {
                lemma_usage_map_update(oldv, i as int, v@[i as int]);
                assert(atom_names(v@.map_values(|e: (Atom, usize)| e.0)) =~= atom_names(
                    oldv.map_values(|e: (Atom, usize)| e.0),
                ));
            }
        },
        None => {
            let a2 = atom.clone();
            let ghost oldv = v@;
            v.push((a2, 1));
            proof {
                assert(v@.drop_last() =~= oldv);
                assert(usage_map_of(v@) == usage_map_of(oldv).insert(atom@, 1nat));
                assert(!usage_map_of(oldv).contains_key(atom@));
                let names = atom_names(v@.map_values(|e: (Atom, usize)| e.0));
                let oldnames = atom_names(oldv.map_values(|e: (Atom, usize)| e.0));
                assert(names.drop_last() =~= oldnames);
                assert(names.last() == atom@);
                assert forall|j: int, k: int| 0 <= j < k < names.len()
                    implies names[j] != names[k] by {
                    if k == names.len() - 1 {
                        assert(names[j] == oldv[j].0@);
                    } else {
                        assert(oldnames[j] == names[j] && oldnames[k] == names[k]);
                    }
                }
            }
        },
    }
}

} // verus!
