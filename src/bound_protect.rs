//! What to do when an index falls outside an array.
use vstd::prelude::*;

verus! {

/// How an out-of-range index is handled.
pub enum ProtectStrategy<V> {
    /// Use the closest valid index.
    Closest,
    /// Wrap the index around the length.
    Loop,
    /// Use this value instead.
    Default(V),
}

/// Indexed access that never fails on an out-of-range index.
pub trait BoundProtect<I, V> {
    fn get(&self, index: I) -> Option<&V>;

    fn get_safe(&self, index: I) -> &V;

    fn get_mut(&mut self, index: I) -> Option<&mut V>;

    fn get_mut_safe(&mut self, index: I) -> &mut V;

    fn set(&mut self, index: I, value: V) -> Option<V>;

    fn set_safe(&mut self, index: I, value: V) -> V;
}

/// An array of `D` indices together with the strategy that guards it.
pub struct BoundProtector<'a, V, const D: usize> {
    strategy: ProtectStrategy<V>,
    array: &'a mut [usize; D],
}

} // verus!
