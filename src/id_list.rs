use smallvec::SmallVec;
use vstd::prelude::*;

verus! {

/// A short list of node indices, stored inline for the common case of
/// unary and binary operations.
#[verifier::external_body]
pub struct IdList {
    items: SmallVec<[usize; 2]>,
}

/// The indices held by an `IdList`, in order.
pub uninterp spec fn ids_of(l: IdList) -> Seq<usize>;

impl IdList {
    /// Relies on `SmallVec::new`: the new vector is empty.
    #[verifier::external_body]
    pub fn new() -> (r: IdList)
        ensures
            ids_of(r) == Seq::<usize>::empty(),
    {
        IdList { items: SmallVec::new() }
    }

    /// Relies on `SmallVec::push`: appends one item at the end.
    #[verifier::external_body]
    pub fn push(&mut self, x: usize)
        requires
            ids_of(*old(self)).len() < usize::MAX,
        ensures
            ids_of(*final(self)) == ids_of(*old(self)).push(x),
    {
        self.items.push(x)
    }

    /// Relies on `SmallVec::len`: the number of items held.
    #[verifier::external_body]
    pub fn len(&self) -> (r: usize)
        ensures
            r == ids_of(*self).len(),
    {
        self.items.len()
    }

    /// Relies on `SmallVec`'s indexing: the item at position `i`.
    #[verifier::external_body]
    pub fn get(&self, i: usize) -> (r: usize)
        requires
            i < ids_of(*self).len(),
        ensures
            r == ids_of(*self)[i as int],
    {
        self.items[i]
    }
}

} // verus!
