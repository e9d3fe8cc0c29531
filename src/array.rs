//! A fixed-length array whose length is chosen at run time.
use vstd::prelude::*;

verus! {

/// A sequence of values whose length is fixed once it is made.
pub struct Array<T> {
    data: Vec<T>,
}

impl<T> Array<T> {
    /// The values, in order.
    pub closed spec fn view(&self) -> Seq<T> {
        self.data@
    }

    /// Clones of `value`, `len` of them.
    pub fn from_value(len: usize, value: T) -> (r: Self)
        where
            T: Clone,
        ensures
            r@.len() == len,
            forall|i: int| 0 <= i < len ==> cloned(value, #[trigger] r@[i]),
    {
        Array { data: vec![value; len] }
    }

    /// The values of `vec`.
    pub fn from_vec(vec: Vec<T>) -> (r: Self)
        ensures
            r@ == vec@,
    {
        Array { data: vec }
    }

    /// Clones of the values of `slice`.
    pub fn from_slice(slice: &[T]) -> (r: Self)
        where
            T: Clone,
        ensures
            r@.len() == slice@.len(),
            forall|i: int| 0 <= i < slice@.len() ==> cloned(slice@[i], #[trigger] r@[i]),
    {
        let mut data: Vec<T> = Vec::new();
        let mut i: usize = 0;
        while i < slice.len()
            invariant
                i <= slice@.len(),
                data@.len() == i,
                forall|j: int| 0 <= j < i ==> cloned(slice@[j], #[trigger] data@[j]),
            decreases slice@.len() - i,
        {
            data.push(slice[i].clone());
            i = i + 1;
        }
        Array { data }
    }

    pub fn len(&self) -> (r: usize)
        ensures
            r == self@.len(),
    {
        self.data.len()
    }

    /// `len` default values.
    pub fn with_len(len: usize) -> (r: Self)
        where
            T: Default,
        ensures
            r@.len() == len,
    {
        let mut data: Vec<T> = Vec::new();
        let mut i: usize = 0;
        while i < len
            invariant
                i <= len,
                data@.len() == i,
            decreases len - i,
        {
            data.push(T::default());
            i = i + 1;
        }
        Array { data }
    }
}

impl<T> std::ops::Deref for Array<T> {
    type Target = [T];

    fn deref(&self) -> &[T] {
        self.data.as_slice()
    }
}

impl<T> std::ops::DerefMut for Array<T> {
    fn deref_mut(&mut self) -> &mut [T] {
        self.data.as_mut_slice()
    }
}

} // verus!
