use vstd::prelude::*;

verus! {

/// Promise index that is computed only once.
#[derive(Debug, PartialEq, Eq, Structural, PartialOrd, Ord, Hash, Clone, Copy)]
pub struct PromiseIndex(u64);

impl PromiseIndex {
    /// The index this value stands for.
    pub closed spec fn index(self) -> u64 {
        self.0
    }

    pub fn new(ix: u64) -> (r: Self)
        ensures
            r.index() == ix,
    {
        PromiseIndex(ix)
    }

    pub fn raw(self) -> (r: u64)
        ensures
            r == self.index(),
    {
        self.0
    }
}

/// The outcome of a contract call, as seen by the callback attached to it.
#[derive(Debug, PartialEq, Eq)]
pub enum PromiseResult {
    Successful(Vec<u8>),
    Failed,
}

/// All error variants which can occur with promise results.
#[non_exhaustive]
#[derive(Debug, PartialEq, Eq, Structural, Clone, Copy)]
pub enum PromiseError {
    /// Promise result failed.
    Failed,
}

} // verus!
