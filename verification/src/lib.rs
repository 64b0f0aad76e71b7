//! An editor core for Peirce's existential graphs (the alpha system).
//!
//! A graph is a rooted tree of *cuts*; each cut carries a set of atoms
//! (propositional symbols) and a set of child cuts. The crate provides the
//! graph model, a reversible action algebra, a bracketed textual codec, and
//! the five inference rules of the alpha calculus.

pub mod atom;
pub mod calculus;
pub mod codec;
pub mod event;
pub mod graph;
