//! Propositional symbols.

use vstd::prelude::*;

verus! {

/// A propositional symbol: a value-type wrapper over a name string.
///
/// Equality is byte-wise equality of the names; ordering and hashing follow
/// the name. In specifications an atom is viewed as its name, a sequence of
/// characters.
#[derive(Debug, Eq, PartialOrd, Ord, Hash)]
pub struct Atom {
    name: String,
}

/// The characters the graph's textual syntax treats as blank.
pub open spec fn is_ws(c: char) -> bool {
    c == ' ' || c == '\t' || c == '\n' || c == '\r'
}

/// A usable atom name: non-empty, free of whitespace and of the three
/// delimiter characters — exactly what the grammar's `atom` production
/// covers.
pub open spec fn valid_atom_name(n: Seq<char>) -> bool {
    &&& n.len() > 0
    &&& forall|i: int| 0 <= i < n.len() ==> {
        &&& #[trigger] n[i] != '['
        &&& n[i] != ']'
        &&& n[i] != ','
        &&& !is_ws(n[i])
    }
}

impl View for Atom {
    type V = Seq<char>;

    closed spec fn view(&self) -> Seq<char> {
        self.name@
    }
}

impl Atom {
    pub fn new(name: String) -> (r: Self)
        ensures
            r@ == name@,
    {
        Self { name }
    }

    /// The name, verbatim.
    pub fn name(&self) -> (r: &String)
        ensures
            r@ == self@,
    {
        &self.name
    }

    /// Whether this atom's name fits the textual grammar's `atom` token.
    pub fn is_valid_name(&self) -> (r: bool)
        ensures
            r == valid_atom_name(self@),
    {
        let m = self.name.as_str().unicode_len();
        if m == 0 {
            return false;
        }
        for i in 0..m
            invariant
                m == self@.len(),
                forall|j: int| 0 <= j < i ==> {
                    &&& #[trigger] self@[j] != '['
                    &&& self@[j] != ']'
                    &&& self@[j] != ','
                    &&& !is_ws(self@[j])
                },
        {
            let c = self.name.as_str().get_char(i);
            if c == '[' || c == ']' || c == ',' || c == ' ' || c == '\t' || c == '\n'
                || c == '\r' {
                return false;
            }
        }
        true
    }
}

impl Clone for Atom {
    fn clone(&self) -> (r: Self)
        ensures
            r@ == self@,
    {
        Atom { name: self.name.clone() }
    }
}

impl PartialEq for Atom {
    fn eq(&self, other: &Self) -> (r: bool)
        ensures
            r == (self@ == other@),
    {
        self.name == other.name
    }
}

impl vstd::std_specs::cmp::PartialEqSpecImpl for Atom {
    open spec fn obeys_eq_spec() -> bool {
        true
    }

    open spec fn eq_spec(&self, other: &Atom) -> bool {
        self@ == other@
    }
}

} // verus!
