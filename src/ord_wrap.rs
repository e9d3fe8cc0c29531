//! A wrapper that admits only values equal to themselves, so that a partial
//! order without NaN-like values can serve as a total one.
use vstd::prelude::*;
use vstd::std_specs::cmp::PartialEqSpec;

verus! {

/// A value that equals itself.
#[derive(Debug, Clone, Copy, PartialEq, PartialOrd)]
pub struct Ordered<T: PartialOrd>(T);

impl<T: PartialOrd> Ordered<T> {
    pub closed spec fn spec_value(&self) -> T {
        self.0
    }

    /// Wraps `v`, which must equal itself.
    pub fn from(v: T) -> (r: Self)
        requires
            T::obeys_eq_spec(),
            v.eq_spec(&v),
        ensures
            r.spec_value() == v,
    {
        let equal = v == v;
        assert(equal);
        Ordered(v)
    }

    /// `v` wrapped, or `None` where `v` does not equal itself.
    pub fn new(v: T) -> (r: Option<Ordered<T>>)
        ensures
            r matches Some(o) ==> o.spec_value() == v,
            T::obeys_eq_spec() ==> (r is Some <==> v.eq_spec(&v)),
    {
        if v == v {
            Some(Ordered(v))
        } else {
            None
        }
    }

    /// The wrapped value.
    pub fn unbox(self) -> (r: T)
        ensures
            r == self.spec_value(),
    {
        self.0
    }

    /// Replaces the wrapped value with `v` where `v` equals itself; reports
    /// whether it did.
    pub fn set(&mut self, v: T) -> (r: bool)
        ensures
            r ==> final(self).spec_value() == v,
            !r ==> *final(self) == *old(self),
            T::obeys_eq_spec() ==> (r <==> v.eq_spec(&v)),
    {
        if v == v {
            self.0 = v;
            true
        } else {
            false
        }
    }
}

} // verus!
