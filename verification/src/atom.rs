use vstd::prelude::*;

verus! {

/// An atom: an immutable, opaque sequence of bytes. Equality is exact byte
/// equality. Atoms are the leaves of the [`crate::Item`] tree.
#[derive(Debug, Eq, Hash, PartialEq)]
pub struct Atom(pub Vec<u8>);

impl View for Atom {
    type V = Seq<u8>;

    open spec fn view(&self) -> Seq<u8> {
        self.0@
    }
}

impl Atom {
    /// Copy a byte slice into a fresh atom.
    pub fn new(atom: &[u8]) -> (r: Self)
        ensures
            r@ == atom@,
    {
        Atom(vstd::slice::slice_to_vec(atom))
    }

    /// True when the atom holds zero bytes.
    pub fn is_empty(&self) -> (r: bool)
        ensures
            r == (self@.len() == 0),
    {
        self.0.len() == 0
    }

    /// Render the atom's bytes as bounded-width display text.
    pub fn format(&self, width: usize) -> (r: String)
        ensures
            r@ == crate::pretty::spec_pretty(self@, width as int),
    {
        crate::pretty::pretty(self.0.as_slice(), width)
    }
}

impl Clone for Atom {
    fn clone(&self) -> (r: Self)
        ensures
            r@ == self@,
    {
        Atom(self.0.clone())
    }
}

} // verus!
