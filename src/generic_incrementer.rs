use std::marker::PhantomData;
use vstd::prelude::*;

verus! {

/// A contract whose state is one counter, with a type parameter that only
/// tags it.
pub struct Incrementer<T> {
    value: u32,
    data: PhantomData<T>,
}

impl<T> Incrementer<T> {
    pub closed spec fn spec_value(&self) -> u32 {
        self.value
    }

    /// A contract with its counter at zero.
    pub fn new() -> (r: Self)
        ensures
            r.spec_value() == 0,
    {
        Incrementer { value: 0, data: PhantomData }
    }

    pub fn value(&self) -> (r: u32)
        ensures
            r == self.spec_value(),
    {
        self.value
    }

    /// Adds `by` to the counter.
    pub fn inc(&mut self, by: u32)
        requires
            old(self).spec_value() + by <= u32::MAX,
        ensures
            final(self).spec_value() == old(self).spec_value() + by,
    {
        self.value += by;
    }
}

} // verus!
