use vstd::prelude::*;

verus! {

/// A contract whose state is one counter.
#[derive(Debug, Clone, Copy, PartialEq, Eq, Structural, Default)]
pub struct Incrementer {
    value: u32,
}

impl Incrementer {
    pub closed spec fn spec_value(&self) -> u32 {
        self.value
    }

    /// The state a freshly deployed contract starts from: the counter at one.
    pub fn new() -> (r: Self)
        ensures
            r.spec_value() == 1,
    {
        Incrementer { value: 1 }
    }

    pub fn value(&self) -> (r: u32)
        ensures
            r == self.spec_value(),
    {
        self.value
    }

    /// Adds `by` to the counter.
    pub fn inc(&mut self, by: u32)
        requires
            old(self).spec_value() + by <= u32::MAX,
        ensures
            final(self).spec_value() == old(self).spec_value() + by,
    {
        self.value += by;
    }
}

} // verus!
