use crate::bound::{above_lower, below_upper, in_range, keys_in_range, Bound};
use crate::lookup_map::LookupMap;
use crate::tree::{lemma_key_count, Tree};
use crate::tree_map::TreeMap;
use vstd::prelude::*;

verus! {

broadcast use vstd::std_specs::hash::group_hash_axioms;

proof fn lemma_subset_finite(a: Set<u64>, b: Set<u64>)
    requires
        a.subset_of(b),
        b.finite(),
    ensures
        a.finite(),
{
    vstd::set_lib::lemma_len_subset(a, b);
}

/// Taking away a subset takes away its number of elements.
proof fn lemma_difference_len(s: Set<u64>, t: Set<u64>)
    requires
        s.finite(),
        t.subset_of(s),
    ensures
        s.difference(t).len() + t.len() == s.len(),
{
    vstd::set_lib::lemma_len_subset(t, s);
    let d = s.difference(t);
    vstd::set_lib::lemma_set_disjoint_lens(d, t);
    assert(d + t =~= s);
}

/// The state of a walk over the keys of a range, in ascending order from the
/// front and descending order from the back.
///
/// The two ends of the range only ever tighten: a key handed out from the
/// front becomes the excluded lower end, one handed out from the back the
/// excluded upper end. `length` is the exact number of keys left between them.
pub struct Cursor {
    length: u32,
    min: Bound,
    max: Bound,
}

impl Cursor {
    /// The keys of `keys` that are still to be handed out.
    pub closed spec fn remaining(&self, keys: Set<u64>) -> Set<u64> {
        keys_in_range(keys, self.min, self.max)
    }

    /// The count of keys left that the cursor keeps.
    pub closed spec fn left(&self) -> nat {
        self.length as nat
    }

    /// The cursor counts the keys left in `keys` exactly.
    pub open spec fn wf(&self, keys: Set<u64>) -> bool {
        self.left() == self.remaining(keys).len()
    }

    /// A cursor over the keys of `tree` from `min` to `max`.
    pub fn new(tree: &Tree, min: Bound, max: Bound) -> (r: Self)
        requires
            tree.wf(),
        ensures
            r.wf(tree@),
            r.remaining(tree@) == keys_in_range(tree@, min, max),
    {
        let length = tree.count_range(min, max);
        Cursor { length, min, max }
    }

    /// The least key of the tree that the lower end lets through.
    fn next_asc(&self, tree: &Tree) -> (r: Option<u64>)
        requires
            tree.wf(),
        ensures
            match r {
                Some(x) => {
                    &&& tree@.contains(x)
                    &&& above_lower(self.min, x)
                    &&& forall|y: u64| tree@.contains(y) && above_lower(self.min, y) ==> x <= y
                },
                None => forall|y: u64| tree@.contains(y) ==> !above_lower(self.min, y),
            },
    {
        match self.min {
            Bound::Unbounded => tree.min(),
            Bound::Included(bound) => tree.ceil_key(bound),
            Bound::Excluded(bound) => tree.higher(bound),
        }
    }

    /// The greatest key of the tree that the upper end lets through.
    fn next_desc(&self, tree: &Tree) -> (r: Option<u64>)
        requires
            tree.wf(),
        ensures
            match r {
                Some(x) => {
                    &&& tree@.contains(x)
                    &&& below_upper(self.max, x)
                    &&& forall|y: u64| tree@.contains(y) && below_upper(self.max, y) ==> y <= x
                },
                None => forall|y: u64| tree@.contains(y) ==> !below_upper(self.max, y),
            },
    {
        match self.max {
            Bound::Unbounded => tree.max(),
            Bound::Included(bound) => tree.floor_key(bound),
            Bound::Excluded(bound) => tree.lower(bound),
        }
    }

    /// Hands out the least key left, or none once every key has been handed out.
    pub fn next(&mut self, tree: &Tree) -> (r: Option<u64>)
        requires
            tree.wf(),
            old(self).wf(tree@),
        ensures
            final(self).wf(tree@),
            match r {
                Some(x) => {
                    &&& old(self).remaining(tree@).contains(x)
                    &&& forall|y: u64| old(self).remaining(tree@).contains(y) ==> x <= y
                    &&& final(self).remaining(tree@) == old(self).remaining(tree@).remove(x)
                },
                None => {
                    &&& old(self).remaining(tree@) == Set::<u64>::empty()
                    &&& final(self).remaining(tree@) == old(self).remaining(tree@)
                },
            },
    {
        let ghost before = self.remaining(tree@);
        proof {
            lemma_key_count(tree);
            tree@.lemma_len_filter(|x: u64| in_range(self.min, self.max, x));
            vstd::set_lib::lemma_set_empty_equivalency_len(before);
        }
        if self.length == 0 {
            return None;
        }
        let next = self.next_asc(tree);
        match next {
            Some(bound) => {
                proof {
                    let y0 = choose|y: u64| before.contains(y);
                    assert(before.contains(y0));
                    assert(before.contains(bound));
                    assert forall|y: u64| before.contains(y) implies bound <= y by {}
                }
                self.min = Bound::Excluded(bound);
                self.length = self.length - 1;
                proof {
                    assert(self.remaining(tree@) =~= before.remove(bound));
                }
            },
            None => {
                proof {
                    let y0 = choose|y: u64| before.contains(y);
                    assert(before.contains(y0));
                }
                self.length = 0;
            },
        }
        next
    }

    /// Hands out the greatest key left, or none once every key has been handed out.
    pub fn next_back(&mut self, tree: &Tree) -> (r: Option<u64>)
        requires
            tree.wf(),
            old(self).wf(tree@),
        ensures
            final(self).wf(tree@),
            match r {
                Some(x) => {
                    &&& old(self).remaining(tree@).contains(x)
                    &&& forall|y: u64| old(self).remaining(tree@).contains(y) ==> y <= x
                    &&& final(self).remaining(tree@) == old(self).remaining(tree@).remove(x)
                },
                None => {
                    &&& old(self).remaining(tree@) == Set::<u64>::empty()
                    &&& final(self).remaining(tree@) == old(self).remaining(tree@)
                },
            },
    {
        let ghost before = self.remaining(tree@);
        proof {
            lemma_key_count(tree);
            tree@.lemma_len_filter(|x: u64| in_range(self.min, self.max, x));
            vstd::set_lib::lemma_set_empty_equivalency_len(before);
        }
        if self.length == 0 {
            return None;
        }
        let next = self.next_desc(tree);
        match next {
            Some(bound) => {
                proof {
                    let y0 = choose|y: u64| before.contains(y);
                    assert(before.contains(y0));
                    assert(before.contains(bound));
                    assert forall|y: u64| before.contains(y) implies y <= bound by {}
                }
                self.max = Bound::Excluded(bound);
                self.length = self.length - 1;
                proof {
                    assert(self.remaining(tree@) =~= before.remove(bound));
                }
            },
            None => {
                proof {
                    let y0 = choose|y: u64| before.contains(y);
                    assert(before.contains(y0));
                }
                self.length = 0;
            },
        }
        next
    }

    /// The number of keys left.
    pub fn len(&self) -> (r: usize)
        ensures
            r as nat == self.left(),
    {
        self.length as usize
    }
}

/// A lazy, double-ended cursor over the keys of a [`Tree`] that lie in a range.
pub struct Keys<'a> {
    tree: &'a Tree,
    cursor: Cursor,
}

impl<'a> View for Keys<'a> {
    type V = Set<u64>;

    /// The keys that are still to be handed out.
    closed spec fn view(&self) -> Set<u64> {
        self.cursor.remaining(self.tree@)
    }
}

impl<'a> Keys<'a> {
    pub closed spec fn wf(&self) -> bool {
        &&& self.tree.wf()
        &&& self.cursor.wf(self.tree@)
    }

    /// All keys of the tree the cursor walks.
    pub closed spec fn tree_keys(&self) -> Set<u64> {
        self.tree@
    }

    /// A cursor over the keys of `tree` from `min` to `max`.
    pub fn new(tree: &'a Tree, min: Bound, max: Bound) -> (r: Self)
        requires
            tree.wf(),
        ensures
            r.wf(),
            r@ == keys_in_range(tree@, min, max),
            r.tree_keys() == tree@,
    {
        Keys { tree, cursor: Cursor::new(tree, min, max) }
    }

    /// A cursor over all keys of `tree`.
    pub fn new_unbounded(tree: &'a Tree) -> (r: Self)
        requires
            tree.wf(),
        ensures
            r.wf(),
            r@ == tree@,
            r.tree_keys() == tree@,
    {
        let r = Self::new(tree, Bound::Unbounded, Bound::Unbounded);
        assert(r@ =~= tree@);
        r
    }

    /// Hands out the least key left, or none once every key has been handed out.
    pub fn next(&mut self) -> (r: Option<u64>)
        requires
            old(self).wf(),
        ensures
            final(self).wf(),
            final(self).tree_keys() == old(self).tree_keys(),
            match r {
                Some(x) => {
                    &&& old(self)@.contains(x)
                    &&& forall|y: u64| old(self)@.contains(y) ==> x <= y
                    &&& final(self)@ == old(self)@.remove(x)
                },
                None => old(self)@ == Set::<u64>::empty() && final(self)@ == old(self)@,
            },
    {
        self.cursor.next(self.tree)
    }

    /// Hands out the greatest key left, or none once every key has been handed out.
    pub fn next_back(&mut self) -> (r: Option<u64>)
        requires
            old(self).wf(),
        ensures
            final(self).wf(),
            final(self).tree_keys() == old(self).tree_keys(),
            match r {
                Some(x) => {
                    &&& old(self)@.contains(x)
                    &&& forall|y: u64| old(self)@.contains(y) ==> y <= x
                    &&& final(self)@ == old(self)@.remove(x)
                },
                None => old(self)@ == Set::<u64>::empty() && final(self)@ == old(self)@,
            },
    {
        self.cursor.next_back(self.tree)
    }

    /// Skips `n` keys from the front and hands out the next one: the key
    /// with exactly `n` smaller keys left. Every key up to it is used up.
    pub fn nth(&mut self, n: usize) -> (r: Option<u64>)
        requires
            old(self).wf(),
        ensures
            final(self).wf(),
            final(self).tree_keys() == old(self).tree_keys(),
            match r {
                Some(x) => {
                    &&& old(self)@.contains(x)
                    &&& old(self)@.filter(|y: u64| y < x).len() == n
                    &&& final(self)@ == old(self)@.filter(|y: u64| x < y)
                },
                None => old(self)@.len() <= n && final(self)@ == Set::<u64>::empty(),
            },
    {
        let ghost start = self@;
        proof {
            lemma_key_count(self.tree);
            self.tree@.lemma_len_filter(|x: u64| in_range(self.cursor.min, self.cursor.max, x));
        }
        let mut i: usize = 0;
        loop
            invariant
                self.wf(),
                self.tree_keys() == old(self).tree_keys(),
                i <= n,
                start == old(self)@,
                start.finite(),
                self@.subset_of(start),
                start.len() == self@.len() + i,
                forall|y: u64, z: u64|
                    start.contains(y) && !self@.contains(y) && self@.contains(z) ==> y < z,
            decreases n - i,
        {
            let ghost before = self@;
            proof {
                lemma_subset_finite(before, start);
            }
            match self.next() {
                None => {
                    proof {
                        assert(self@ =~= Set::<u64>::empty());
                    }
                    return None;
                },
                Some(x) => {
                    proof {
                        assert(self@ =~= start.filter(|y: u64| x < y)) by {
                            assert forall|y: u64| start.contains(y) && x < y implies self@.contains(y) by {
                                if !before.contains(y) {
                                    assert(y < x);
                                }
                            }
                        }
                        let below = start.filter(|y: u64| y < x);
                        assert(below =~= start.difference(before)) by {
                            assert forall|y: u64| start.contains(y) && y < x implies !before.contains(y) by {}
                            assert forall|y: u64| start.contains(y) && !before.contains(y) implies y < x by {}
                        }
                        lemma_difference_len(start, before);
                    }
                    if i == n {
                        return Some(x);
                    }
                    i = i + 1;
                },
            }
        }
    }

    /// Skips `n` keys from the back and hands out the next one: the key
    /// with exactly `n` greater keys left. Every key down to it is used up.
    pub fn nth_back(&mut self, n: usize) -> (r: Option<u64>)
        requires
            old(self).wf(),
        ensures
            final(self).wf(),
            final(self).tree_keys() == old(self).tree_keys(),
            match r {
                Some(x) => {
                    &&& old(self)@.contains(x)
                    &&& old(self)@.filter(|y: u64| x < y).len() == n
                    &&& final(self)@ == old(self)@.filter(|y: u64| y < x)
                },
                None => old(self)@.len() <= n && final(self)@ == Set::<u64>::empty(),
            },
    {
        let ghost start = self@;
        proof {
            lemma_key_count(self.tree);
            self.tree@.lemma_len_filter(|x: u64| in_range(self.cursor.min, self.cursor.max, x));
        }
        let mut i: usize = 0;
        loop
            invariant
                self.wf(),
                self.tree_keys() == old(self).tree_keys(),
                i <= n,
                start == old(self)@,
                start.finite(),
                self@.subset_of(start),
                start.len() == self@.len() + i,
                forall|y: u64, z: u64|
                    start.contains(y) && !self@.contains(y) && self@.contains(z) ==> z < y,
            decreases n - i,
        {
            let ghost before = self@;
            proof {
                lemma_subset_finite(before, start);
            }
            match self.next_back() {
                None => {
                    proof {
                        assert(self@ =~= Set::<u64>::empty());
                    }
                    return None;
                },
                Some(x) => {
                    proof {
                        assert(self@ =~= start.filter(|y: u64| y < x)) by {
                            assert forall|y: u64| start.contains(y) && y < x implies self@.contains(y) by {
                                if !before.contains(y) {
                                    assert(x < y);
                                }
                            }
                        }
                        let above = start.filter(|y: u64| x < y);
                        assert(above =~= start.difference(before)) by {
                            assert forall|y: u64| start.contains(y) && x < y implies !before.contains(y) by {}
                            assert forall|y: u64| start.contains(y) && !before.contains(y) implies x < y by {}
                        }
                        lemma_difference_len(start, before);
                    }
                    if i == n {
                        return Some(x);
                    }
                    i = i + 1;
                },
            }
        }
    }

    /// The number of keys left.
    pub fn len(&self) -> (r: usize)
        requires
            self.wf(),
        ensures
            r as nat == self@.len(),
    {
        self.cursor.len()
    }

    /// The exact number of keys left, as lower and upper bound.
    pub fn size_hint(&self) -> (r: (usize, Option<usize>))
        requires
            self.wf(),
        ensures
            r.0 as nat == self@.len(),
            r.1 == Some(r.0),
    {
        let len = self.cursor.len();
        (len, Some(len))
    }

    /// The number of keys left, consuming the cursor.
    pub fn count(self) -> (r: usize)
        requires
            self.wf(),
        ensures
            r as nat == self@.len(),
    {
        self.cursor.len()
    }
}

/// A lazy, double-ended cursor over the entries of a `TreeMap` whose keys lie
/// in a range, in key order.
pub struct Iter<'a, V> {
    keys: Keys<'a>,
    values: &'a LookupMap<u64, V>,
}

impl<'a, V> View for Iter<'a, V> {
    type V = Set<u64>;

    /// The keys whose entries are still to be handed out.
    closed spec fn view(&self) -> Set<u64> {
        self.keys@
    }
}

impl<'a, V> Iter<'a, V> {
    pub closed spec fn wf(&self) -> bool {
        &&& self.keys.wf()
        &&& self.values@.dom() == self.keys.tree_keys()
    }

    /// The whole map the cursor walks.
    pub closed spec fn entries(&self) -> Map<u64, V> {
        self.values@
    }

    pub(crate) fn new(keys: Keys<'a>, values: &'a LookupMap<u64, V>) -> (r: Self)
        requires
            keys.wf(),
            values@.dom() == keys.tree_keys(),
        ensures
            r.wf(),
            r@ == keys@,
            r.entries() == values@,
    {
        Iter { keys, values }
    }

    fn entry(&self, key: u64) -> (r: (u64, &'a V))
        requires
            self.values@.contains_key(key),
        ensures
            r.0 == key,
            *r.1 == self.values@[key],
    {
        let values: &'a LookupMap<u64, V> = self.values;
        (key, values.get(&key).unwrap())
    }

    /// Hands out the entry with the least key left.
    pub fn next(&mut self) -> (r: Option<(u64, &'a V)>)
        requires
            old(self).wf(),
        ensures
            final(self).wf(),
            final(self).entries() == old(self).entries(),
            match r {
                Some(e) => {
                    &&& old(self)@.contains(e.0)
                    &&& forall|y: u64| old(self)@.contains(y) ==> e.0 <= y
                    &&& final(self)@ == old(self)@.remove(e.0)
                    &&& *e.1 == old(self).entries()[e.0]
                },
                None => old(self)@ == Set::<u64>::empty() && final(self)@ == old(self)@,
            },
    {
        match self.keys.next() {
            Some(key) => Some(self.entry(key)),
            None => None,
        }
    }

    /// Hands out the entry with the greatest key left.
    pub fn next_back(&mut self) -> (r: Option<(u64, &'a V)>)
        requires
            old(self).wf(),
        ensures
            final(self).wf(),
            final(self).entries() == old(self).entries(),
            match r {
                Some(e) => {
                    &&& old(self)@.contains(e.0)
                    &&& forall|y: u64| old(self)@.contains(y) ==> y <= e.0
                    &&& final(self)@ == old(self)@.remove(e.0)
                    &&& *e.1 == old(self).entries()[e.0]
                },
                None => old(self)@ == Set::<u64>::empty() && final(self)@ == old(self)@,
            },
    {
        match self.keys.next_back() {
            Some(key) => Some(self.entry(key)),
            None => None,
        }
    }

    /// Skips `n` entries from the front and hands out the next one.
    pub fn nth(&mut self, n: usize) -> (r: Option<(u64, &'a V)>)
        requires
            old(self).wf(),
        ensures
            final(self).wf(),
            final(self).entries() == old(self).entries(),
            match r {
                Some(e) => {
                    &&& old(self)@.contains(e.0)
                    &&& old(self)@.filter(|y: u64| y < e.0).len() == n
                    &&& final(self)@ == old(self)@.filter(|y: u64| e.0 < y)
                    &&& *e.1 == old(self).entries()[e.0]
                },
                None => old(self)@.len() <= n && final(self)@ == Set::<u64>::empty(),
            },
    {
        match self.keys.nth(n) {
            Some(key) => Some(self.entry(key)),
            None => None,
        }
    }

    /// Skips `n` entries from the back and hands out the next one.
    pub fn nth_back(&mut self, n: usize) -> (r: Option<(u64, &'a V)>)
        requires
            old(self).wf(),
        ensures
            final(self).wf(),
            final(self).entries() == old(self).entries(),
            match r {
                Some(e) => {
                    &&& old(self)@.contains(e.0)
                    &&& old(self)@.filter(|y: u64| e.0 < y).len() == n
                    &&& final(self)@ == old(self)@.filter(|y: u64| y < e.0)
                    &&& *e.1 == old(self).entries()[e.0]
                },
                None => old(self)@.len() <= n && final(self)@ == Set::<u64>::empty(),
            },
    {
        match self.keys.nth_back(n) {
            Some(key) => Some(self.entry(key)),
            None => None,
        }
    }

    /// The number of entries left.
    pub fn len(&self) -> (r: usize)
        requires
            self.wf(),
        ensures
            r as nat == self@.len(),
    {
        self.keys.len()
    }

    pub fn size_hint(&self) -> (r: (usize, Option<usize>))
        requires
            self.wf(),
        ensures
            r.0 as nat == self@.len(),
            r.1 == Some(r.0),
    {
        self.keys.size_hint()
    }

    /// The number of entries left, consuming the cursor.
    pub fn count(self) -> (r: usize)
        requires
            self.wf(),
        ensures
            r as nat == self@.len(),
    {
        self.keys.count()
    }
}

/// A lazy, double-ended cursor over the values of a `TreeMap`, in key order.
pub struct Values<'a, V> {
    inner: Iter<'a, V>,
}

impl<'a, V> View for Values<'a, V> {
    type V = Set<u64>;

    /// The keys whose values are still to be handed out.
    closed spec fn view(&self) -> Set<u64> {
        self.inner@
    }
}

impl<'a, V> Values<'a, V> {
    pub closed spec fn wf(&self) -> bool {
        self.inner.wf()
    }

    /// The whole map the cursor walks.
    pub closed spec fn entries(&self) -> Map<u64, V> {
        self.inner.entries()
    }

    pub(crate) fn new(inner: Iter<'a, V>) -> (r: Self)
        requires
            inner.wf(),
        ensures
            r.wf(),
            r@ == inner@,
            r.entries() == inner.entries(),
    {
        Values { inner }
    }

    /// Hands out the value under the least key left.
    pub fn next(&mut self) -> (r: Option<&'a V>)
        requires
            old(self).wf(),
        ensures
            final(self).wf(),
            final(self).entries() == old(self).entries(),
            match r {
                Some(v) => exists|k: u64|
                    {
                        &&& old(self)@.contains(k)
                        &&& forall|y: u64| old(self)@.contains(y) ==> k <= y
                        &&& final(self)@ == old(self)@.remove(k)
                        &&& *v == old(self).entries()[k]
                    },
                None => old(self)@ == Set::<u64>::empty() && final(self)@ == old(self)@,
            },
    {
        let ghost before = self@;
        let ghost entries = self.entries();
        match self.inner.next() {
            Some(e) => {
                proof {
                    assert(before.contains(e.0) && (forall|y: u64| before.contains(y) ==> e.0 <= y)
                        && self@ == before.remove(e.0) && *e.1 == entries[e.0]);
                }
                Some(e.1)
            },
            None => None,
        }
    }

    /// Hands out the value under the greatest key left.
    pub fn next_back(&mut self) -> (r: Option<&'a V>)
        requires
            old(self).wf(),
        ensures
            final(self).wf(),
            final(self).entries() == old(self).entries(),
            match r {
                Some(v) => exists|k: u64|
                    {
                        &&& old(self)@.contains(k)
                        &&& forall|y: u64| old(self)@.contains(y) ==> y <= k
                        &&& final(self)@ == old(self)@.remove(k)
                        &&& *v == old(self).entries()[k]
                    },
                None => old(self)@ == Set::<u64>::empty() && final(self)@ == old(self)@,
            },
    {
        let ghost before = self@;
        let ghost entries = self.entries();
        match self.inner.next_back() {
            Some(e) => {
                proof {
                    assert(before.contains(e.0) && (forall|y: u64| before.contains(y) ==> y <= e.0)
                        && self@ == before.remove(e.0) && *e.1 == entries[e.0]);
                }
                Some(e.1)
            },
            None => None,
        }
    }

    /// Skips `n` values from the front and hands out the next one.
    pub fn nth(&mut self, n: usize) -> (r: Option<&'a V>)
        requires
            old(self).wf(),
        ensures
            final(self).wf(),
            final(self).entries() == old(self).entries(),
            match r {
                Some(v) => exists|k: u64|
                    {
                        &&& old(self)@.contains(k)
                        &&& old(self)@.filter(|y: u64| y < k).len() == n
                        &&& final(self)@ == old(self)@.filter(|y: u64| k < y)
                        &&& *v == old(self).entries()[k]
                    },
                None => old(self)@.len() <= n && final(self)@ == Set::<u64>::empty(),
            },
    {
        let ghost before = self@;
        let ghost entries = self.entries();
        match self.inner.nth(n) {
            Some(e) => {
                proof {
                    assert(before.contains(e.0) && before.filter(|y: u64| y < e.0).len() == n
                        && self@ == before.filter(|y: u64| e.0 < y) && *e.1 == entries[e.0]);
                }
                Some(e.1)
            },
            None => None,
        }
    }

    /// Skips `n` values from the back and hands out the next one.
    pub fn nth_back(&mut self, n: usize) -> (r: Option<&'a V>)
        requires
            old(self).wf(),
        ensures
            final(self).wf(),
            final(self).entries() == old(self).entries(),
            match r {
                Some(v) => exists|k: u64|
                    {
                        &&& old(self)@.contains(k)
                        &&& old(self)@.filter(|y: u64| k < y).len() == n
                        &&& final(self)@ == old(self)@.filter(|y: u64| y < k)
                        &&& *v == old(self).entries()[k]
                    },
                None => old(self)@.len() <= n && final(self)@ == Set::<u64>::empty(),
            },
    {
        let ghost before = self@;
        let ghost entries = self.entries();
        match self.inner.nth_back(n) {
            Some(e) => {
                proof {
                    assert(before.contains(e.0) && before.filter(|y: u64| e.0 < y).len() == n
                        && self@ == before.filter(|y: u64| y < e.0) && *e.1 == entries[e.0]);
                }
                Some(e.1)
            },
            None => None,
        }
    }

    /// The number of values left.
    pub fn len(&self) -> (r: usize)
        requires
            self.wf(),
        ensures
            r as nat == self@.len(),
    {
        self.inner.len()
    }

    pub fn size_hint(&self) -> (r: (usize, Option<usize>))
        requires
            self.wf(),
        ensures
            r.0 as nat == self@.len(),
            r.1 == Some(r.0),
    {
        self.inner.size_hint()
    }

    /// The number of values left, consuming the cursor.
    pub fn count(self) -> (r: usize)
        requires
            self.wf(),
        ensures
            r as nat == self@.len(),
    {
        self.inner.count()
    }
}

/// A double-ended cursor over the entries of a `TreeMap` in key order that
/// lends out each value for change in place. It holds no borrow between steps:
/// each step borrows the map it is handed, and the value it lends lives as
/// long as that borrow.
pub struct IterMut {
    cursor: Cursor,
}

impl IterMut {
    /// The keys of `keys` whose entries are still to be handed out.
    pub closed spec fn remaining(&self, keys: Set<u64>) -> Set<u64> {
        self.cursor.remaining(keys)
    }

    /// The cursor counts the entries left among `keys` exactly.
    pub closed spec fn wf(&self, keys: Set<u64>) -> bool {
        self.cursor.wf(keys)
    }

    pub(crate) fn new(cursor: Cursor) -> (r: Self)
        ensures
            forall|keys: Set<u64>| r.remaining(keys) == cursor.remaining(keys),
            forall|keys: Set<u64>| r.wf(keys) == cursor.wf(keys),
    {
        IterMut { cursor }
    }

    /// Hands out the entry of `map` with the least key left, its value lent
    /// for change.
    pub fn next<'m, V>(&mut self, map: &'m mut TreeMap<V>) -> (r: Option<(u64, &'m mut V)>)
        requires
            old(map).wf(),
            old(self).wf(old(map).index()),
        ensures
            final(map).wf(),
            final(map).index() == old(map).index(),
            final(map).issued() == old(map).issued(),
            final(self).wf(old(map).index()),
            match r {
                Some(e) => {
                    &&& old(self).remaining(old(map).index()).contains(e.0)
                    &&& forall|y: u64| old(self).remaining(old(map).index()).contains(y) ==> e.0 <= y
                    &&& final(self).remaining(old(map).index()) == old(self).remaining(
                        old(map).index(),
                    ).remove(e.0)
                    &&& *e.1 == old(map)@[e.0]
                    &&& final(map)@ == old(map)@.insert(e.0, *final(e.1))
                },
                None => {
                    &&& old(self).remaining(old(map).index()) == Set::<u64>::empty()
                    &&& final(self).remaining(old(map).index()) == old(self).remaining(
                        old(map).index(),
                    )
                    &&& *final(map) == *old(map)
                },
            },
    {
        proof {
            crate::tree_map::lemma_index_matches_values(map);
        }
        match self.cursor.next(map.tree()) {
            Some(key) => match map.get_mut(key) {
                Some(v) => Some((key, v)),
                None => None,
            },
            None => None,
        }
    }

    /// Hands out the entry of `map` with the greatest key left, its value lent
    /// for change.
    pub fn next_back<'m, V>(&mut self, map: &'m mut TreeMap<V>) -> (r: Option<(u64, &'m mut V)>)
        requires
            old(map).wf(),
            old(self).wf(old(map).index()),
        ensures
            final(map).wf(),
            final(map).index() == old(map).index(),
            final(map).issued() == old(map).issued(),
            final(self).wf(old(map).index()),
            match r {
                Some(e) => {
                    &&& old(self).remaining(old(map).index()).contains(e.0)
                    &&& forall|y: u64| old(self).remaining(old(map).index()).contains(y) ==> y <= e.0
                    &&& final(self).remaining(old(map).index()) == old(self).remaining(
                        old(map).index(),
                    ).remove(e.0)
                    &&& *e.1 == old(map)@[e.0]
                    &&& final(map)@ == old(map)@.insert(e.0, *final(e.1))
                },
                None => {
                    &&& old(self).remaining(old(map).index()) == Set::<u64>::empty()
                    &&& final(self).remaining(old(map).index()) == old(self).remaining(
                        old(map).index(),
                    )
                    &&& *final(map) == *old(map)
                },
            },
    {
        proof {
            crate::tree_map::lemma_index_matches_values(map);
        }
        match self.cursor.next_back(map.tree()) {
            Some(key) => match map.get_mut(key) {
                Some(v) => Some((key, v)),
                None => None,
            },
            None => None,
        }
    }

    /// The number of entries left among `keys`.
    pub fn len(&self) -> (r: usize)
        ensures
            forall|keys: Set<u64>| self.wf(keys) ==> r as nat == self.remaining(keys).len(),
    {
        self.cursor.len()
    }
}

/// A double-ended cursor over the values of a `TreeMap` in key order that
/// lends out each one for change in place, from the map handed to each step.
pub struct ValuesMut {
    inner: IterMut,
}

impl ValuesMut {
    /// The keys of `keys` whose values are still to be handed out.
    pub closed spec fn remaining(&self, keys: Set<u64>) -> Set<u64> {
        self.inner.remaining(keys)
    }

    pub closed spec fn wf(&self, keys: Set<u64>) -> bool {
        self.inner.wf(keys)
    }

    pub(crate) fn new(inner: IterMut) -> (r: Self)
        ensures
            forall|keys: Set<u64>| r.remaining(keys) == inner.remaining(keys),
            forall|keys: Set<u64>| r.wf(keys) == inner.wf(keys),
    {
        ValuesMut { inner }
    }

    /// Lends out the value of `map` under the least key left.
    pub fn next<'m, V>(&mut self, map: &'m mut TreeMap<V>) -> (r: Option<&'m mut V>)
        requires
            old(map).wf(),
            old(self).wf(old(map).index()),
        ensures
            final(map).wf(),
            final(map).index() == old(map).index(),
            final(self).wf(old(map).index()),
            match r {
                Some(v) => exists|k: u64|
                    {
                        &&& old(self).remaining(old(map).index()).contains(k)
                        &&& forall|y: u64| old(self).remaining(old(map).index()).contains(y) ==> k <= y
                        &&& final(self).remaining(old(map).index()) == old(self).remaining(
                            old(map).index(),
                        ).remove(k)
                        &&& *v == old(map)@[k]
                        &&& final(map)@ == old(map)@.insert(k, *final(v))
                    },
                None => {
                    &&& old(self).remaining(old(map).index()) == Set::<u64>::empty()
                    &&& *final(map) == *old(map)
                },
            },
    {
        match self.inner.next(map) {
            Some(e) => Some(e.1),
            None => None,
        }
    }

    /// Lends out the value of `map` under the greatest key left.
    pub fn next_back<'m, V>(&mut self, map: &'m mut TreeMap<V>) -> (r: Option<&'m mut V>)
        requires
            old(map).wf(),
            old(self).wf(old(map).index()),
        ensures
            final(map).wf(),
            final(map).index() == old(map).index(),
            final(self).wf(old(map).index()),
            match r {
                Some(v) => exists|k: u64|
                    {
                        &&& old(self).remaining(old(map).index()).contains(k)
                        &&& forall|y: u64| old(self).remaining(old(map).index()).contains(y) ==> y <= k
                        &&& final(self).remaining(old(map).index()) == old(self).remaining(
                            old(map).index(),
                        ).remove(k)
                        &&& *v == old(map)@[k]
                        &&& final(map)@ == old(map)@.insert(k, *final(v))
                    },
                None => {
                    &&& old(self).remaining(old(map).index()) == Set::<u64>::empty()
                    &&& *final(map) == *old(map)
                },
            },
    {
        match self.inner.next_back(map) {
            Some(e) => Some(e.1),
            None => None,
        }
    }

    /// The number of values left among `keys`.
    pub fn len(&self) -> (r: usize)
        ensures
            forall|keys: Set<u64>| self.wf(keys) ==> r as nat == self.remaining(keys).len(),
    {
        self.inner.len()
    }
}

} // verus!
