//! The per-cut record.

use vstd::prelude::*;
use crate::atom::Atom;
use crate::graph::CutId;

verus! {

/// What one cut holds, as seen by specifications: its depth, the names of its
/// atoms (in insertion order, without duplicates), and the ids of its child
/// cuts (in insertion order, without duplicates).
#[verifier::ext_equal]
pub ghost struct SubgraphView {
    pub level: nat,
    pub atoms: Seq<Seq<char>>,
    pub subgraphs: Seq<CutId>,
}

/// One cut of a graph: its cached depth, the atoms it directly holds, and the
/// ids of its direct child cuts.
///
/// Both `atoms` and `subgraphs` have set semantics: the well-formedness
/// predicate of [`crate::graph::Graph`] keeps them free of duplicates. The
/// order of the vectors is kept only so that serialization is deterministic.
#[derive(Debug)]
pub struct Subgraph {
    pub level: usize,
    pub atoms: Vec<Atom>,
    pub subgraphs: Vec<CutId>,
}

/// The names of a sequence of atoms.
pub open spec fn atom_names(s: Seq<Atom>) -> Seq<Seq<char>> {
    s.map_values(|a: Atom| a@)
}

impl View for Subgraph {
    type V = SubgraphView;

    open spec fn view(&self) -> SubgraphView {
        SubgraphView {
            level: self.level as nat,
            atoms: atom_names(self.atoms@),
            subgraphs: self.subgraphs@,
        }
    }
}

impl Subgraph {
    /// An empty cut at the given depth.
    pub fn new(level: usize) -> (r: Self)
        ensures
            r@.level == level,
            r@.atoms == Seq::<Seq<char>>::empty(),
            r@.subgraphs == Seq::<CutId>::empty(),
    {
        let r = Subgraph { level, atoms: Vec::new(), subgraphs: Vec::new() };
        proof {
            assert(r@.atoms =~= Seq::<Seq<char>>::empty());
        }
        r
    }

    /// The cached depth of this cut.
    pub fn level(&self) -> (r: usize)
        ensures
            r == self@.level,
    {
        self.level
    }

    /// Overwrites the cached depth.
    pub fn set_level(&mut self, level: usize)
        ensures
            final(self)@ == (SubgraphView { level: level as nat, ..old(self)@ }),
    {
        self.level = level;
    }

    /// The atoms this cut directly holds.
    pub fn atoms(&self) -> (r: &Vec<Atom>)
        ensures
            atom_names(r@) == self@.atoms,
    {
        &self.atoms
    }

    /// The ids of the direct child cuts.
    pub fn subgraphs(&self) -> (r: &Vec<CutId>)
        ensures
            r@ == self@.subgraphs,
    {
        &self.subgraphs
    }

    /// Whether this cut directly holds an atom with the given name.
    pub fn contains_atom(&self, atom: &Atom) -> (r: bool)
        ensures
            r == self@.atoms.contains(atom@),
    {
        let n = self.atoms.len();
        for i in 0..n
            invariant
                n == self.atoms.len(),
                forall|j: int| 0 <= j < i ==> self@.atoms[j] != atom@,
        {
            if self.atoms[i].eq(atom) {
                assert(self@.atoms[i as int] == atom@);
                return true;
            }
        }
        assert(forall|j: int| 0 <= j < self@.atoms.len() ==> self@.atoms[j] != atom@);
        false
    }

    /// Unlinks the child id `t`, which must be present and unique in the
    /// child list.
    pub(crate) fn remove_child(&mut self, t: CutId)
        requires
            old(self)@.subgraphs.no_duplicates(),
            old(self)@.subgraphs.contains(t),
        ensures
            final(self)@ == (SubgraphView {
                subgraphs: old(self)@.subgraphs.remove_value(t),
                ..old(self)@
            }),
    {
        let n = self.subgraphs.len();
        let mut found: Option<usize> = None;
        for i in 0..n
            invariant
                n == self.subgraphs@.len(),
                match found {
                    Some(k) => k < i && self.subgraphs@[k as int] == t && forall|j: int|
                        0 <= j < k ==> self.subgraphs@[j] != t,
                    None => forall|j: int| 0 <= j < i ==> self.subgraphs@[j] != t,
                },
        {
            if found.is_none() && self.subgraphs[i] == t {
                found = Some(i);
            }
        }
        let ti = match found {
            Some(k) => k,
            None => {
                proof {
                    let j = choose|j: int|
                        0 <= j < self.subgraphs@.len() && self.subgraphs@[j] == t;
                    assert(self.subgraphs@[j] == t);
                    assert(false);
                }
                0
            },
        };
        proof {
            let sseq = old(self)@.subgraphs;
            sseq.index_of_first_ensures(t);
            let i0 = sseq.index_of_first(t)->0;
            if i0 < ti {
                assert(sseq[i0] != t);
                assert(false);
            } else if i0 > ti {
                assert(sseq[ti as int] != t);
                assert(false);
            }
        }
        self.subgraphs.remove(ti);
    }

    /// Whether the given id is a direct child of this cut.
    pub fn contains_subgraph(&self, id: CutId) -> (r: bool)
        ensures
            r == self@.subgraphs.contains(id),
    {
        let n = self.subgraphs.len();
        for i in 0..n
            invariant
                n == self.subgraphs.len(),
                forall|j: int| 0 <= j < i ==> self@.subgraphs[j] != id,
        {
            if self.subgraphs[i] == id {
                return true;
            }
        }
        false
    }
}

} // verus!
