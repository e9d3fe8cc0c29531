//! Fixed-dimension vectors.
use vstd::prelude::*;

verus! {

/// A vector of `N` components.
pub struct Vector<T, const N: usize> {
    data: [T; N],
}

impl<T, const N: usize> Vector<T, N> {
    pub closed spec fn spec_data(&self) -> Seq<T> {
        self.data@
    }

    pub fn new(data: [T; N]) -> (r: Self)
        ensures
            r.spec_data() == data@,
    {
        Vector { data }
    }

    /// The number of components.
    pub fn dim(&self) -> (r: usize)
        ensures
            r == N,
    {
        N
    }
}

} // verus!
