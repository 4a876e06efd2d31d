use vstd::prelude::*;

verus! {

/// One end of a key range.
#[derive(Clone, Copy, Debug, PartialEq, Eq, Structural)]
pub enum Bound {
    Included(u64),
    Excluded(u64),
    Unbounded,
}

/// `x` is not cut off by `b` taken as the lower end of a range.
pub open spec fn above_lower(b: Bound, x: u64) -> bool {
    match b {
        Bound::Included(k) => k <= x,
        Bound::Excluded(k) => k < x,
        Bound::Unbounded => true,
    }
}

/// `x` is not cut off by `b` taken as the upper end of a range.
pub open spec fn below_upper(b: Bound, x: u64) -> bool {
    match b {
        Bound::Included(k) => x <= k,
        Bound::Excluded(k) => x < k,
        Bound::Unbounded => true,
    }
}

/// `x` lies in the range from `min` to `max`.
pub open spec fn in_range(min: Bound, max: Bound, x: u64) -> bool {
    above_lower(min, x) && below_upper(max, x)
}

/// The keys of `keys` that lie in the range from `min` to `max`.
pub open spec fn keys_in_range(keys: Set<u64>, min: Bound, max: Bound) -> Set<u64> {
    keys.filter(|x: u64| in_range(min, max, x))
}

} // verus!
