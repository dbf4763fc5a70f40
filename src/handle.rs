use vstd::prelude::*;

verus! {

/// A handle to a surreal number interned in a `SurrealContext`.
///
/// Two handles that differ may still denote the same number: comparisons go
/// through the context's order relation, never through the handle itself.
#[derive(Clone, Copy, Debug, Hash)]
pub struct SurrealFinite {
    id: usize,
}

impl SurrealFinite {
    /// The position of this number's structure in its context's arena.
    pub closed spec fn index(self) -> int {
        self.id as int
    }

    pub(crate) fn from_index(i: usize) -> (r: SurrealFinite)
        ensures
            r.index() == i,
    {
        SurrealFinite { id: i }
    }

    pub(crate) fn position(self) -> (r: usize)
        ensures
            r == self.index(),
    {
        self.id
    }
}

/// A handle is a position that fits in `usize`, and it is determined by it.
pub broadcast proof fn lemma_index(x: SurrealFinite, y: SurrealFinite)
    ensures
        0 <= #[trigger] x.index() <= usize::MAX,
        x.index() == #[trigger] y.index() ==> x == y,
{
}

} // verus!
