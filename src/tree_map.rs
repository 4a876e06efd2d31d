use crate::bound::{keys_in_range, Bound};
use crate::iter::{Cursor, Iter, IterMut, Keys, Values, ValuesMut};
use crate::lookup_map::LookupMap;
use crate::tree::{is_greatest_below, is_least_above, lemma_key_count, Tree};
use vstd::prelude::*;

verus! {

broadcast use vstd::std_specs::hash::group_hash_axioms;

/// A sorted map from `u64` keys to values: an ordered index (`Tree`) of the
/// keys beside a lookup map that holds the value of each key.
pub struct TreeMap<V> {
    tree: Tree,
    values: LookupMap<u64, V>,
}

impl<V> View for TreeMap<V> {
    type V = Map<u64, V>;

    closed spec fn view(&self) -> Map<u64, V> {
        self.values@
    }
}

impl<V> TreeMap<V> {
    /// The keys that the ordered index holds.
    pub closed spec fn index(&self) -> Set<u64> {
        self.tree@
    }

    /// The index holds exactly the keys that have a value.
    pub closed spec fn wf(&self) -> bool {
        &&& self.tree.wf()
        &&& self.values@.dom() == self.tree@
    }

    /// How many node ids the index has issued so far.
    pub closed spec fn issued(&self) -> nat {
        self.tree.issued()
    }

    /// Another key can still be added.
    pub open spec fn has_room(&self) -> bool {
        self.issued() < u32::MAX
    }

    /// A map whose index is stored under `prefix` followed by `n`, and whose
    /// values under `prefix` followed by `v`.
    pub fn new(prefix: Vec<u8>) -> (r: Self)
        ensures
            r.wf(),
            r@ == Map::<u64, V>::empty(),
            r.issued() == 0,
    {
        let mut index_prefix = prefix.clone();
        index_prefix.push(110u8);
        let mut value_prefix = prefix;
        value_prefix.push(118u8);
        let r = TreeMap { tree: Tree::new(index_prefix), values: LookupMap::new(value_prefix) };
        proof {
            assert(r.values@.dom() =~= r.tree@);
        }
        r
    }

    /// The number of entries.
    pub fn len(&self) -> (r: u32)
        requires
            self.wf(),
        ensures
            r as nat == self@.dom().len(),
    {
        self.tree.len()
    }

    pub fn is_empty(&self) -> (r: bool)
        requires
            self.wf(),
        ensures
            r == (self@.dom() == Set::<u64>::empty()),
    {
        self.tree.is_empty()
    }

    pub fn contains_key(&self, key: u64) -> (r: bool)
        requires
            self.wf(),
        ensures
            r == self@.contains_key(key),
    {
        self.values.contains_key(&key)
    }

    pub fn get(&self, key: u64) -> (r: Option<&V>)
        requires
            self.wf(),
        ensures
            match r {
                Some(v) => self@.contains_key(key) && *v == self@[key],
                None => !self@.contains_key(key),
            },
    {
        self.values.get(&key)
    }

    /// A reference through which the value of `key` can be changed in place.
    pub fn get_mut(&mut self, key: u64) -> (r: Option<&mut V>)
        requires
            old(self).wf(),
        ensures
            final(self).wf(),
            final(self).index() == old(self).index(),
            final(self).issued() == old(self).issued(),
            match r {
                Some(v) => {
                    &&& old(self)@.contains_key(key)
                    &&& *v == old(self)@[key]
                    &&& final(self)@ == old(self)@.insert(key, *final(v))
                },
                None => !old(self)@.contains_key(key) && final(self)@ == old(self)@,
            },
    {
        proof {
            assert forall|v: V| #[trigger] self.values@.insert(key, v).dom() == self.values@.dom().insert(key) by {
                assert(self.values@.insert(key, v).dom() =~= self.values@.dom().insert(key));
            }
            if self.values@.contains_key(key) {
                assert(self.values@.dom().insert(key) =~= self.values@.dom());
            }
        }
        self.values.get_mut(&key)
    }

    /// The ordered index of the keys.
    pub fn tree(&self) -> (r: &Tree)
        ensures
            r@ == self.index(),
            self.wf() ==> r.wf(),
    {
        &self.tree
    }

    /// Sets the value of `key` and hands back the value it replaced. A new key
    /// goes into the index before its value is stored.
    pub fn insert(&mut self, key: u64, value: V) -> (r: Option<V>)
        requires
            old(self).wf(),
            old(self)@.contains_key(key) || old(self).has_room(),
        ensures
            final(self).wf(),
            final(self)@ == old(self)@.insert(key, value),
            final(self).issued() == old(self).issued() + if old(self)@.contains_key(key) {
                0nat
            } else {
                1nat
            },
            match r {
                Some(v) => old(self)@.contains_key(key) && v == old(self)@[key],
                None => !old(self)@.contains_key(key),
            },
    {
        self.tree.insert(key);
        let r = self.values.insert(key, value);
        proof {
            assert(self.values@.dom() =~= self.tree@);
        }
        r
    }

    /// Deletes the entry of `key` and hands back its value. A key that the
    /// index does not hold leaves the map as it was.
    pub fn remove(&mut self, key: u64) -> (r: Option<V>)
        requires
            old(self).wf(),
        ensures
            final(self).wf(),
            final(self)@ == old(self)@.remove(key),
            final(self).issued() == old(self).issued(),
            match r {
                Some(v) => old(self)@.contains_key(key) && v == old(self)@[key],
                None => !old(self)@.contains_key(key),
            },
            !old(self)@.contains_key(key) ==> *final(self) == *old(self),
    {
        if self.tree.contains(key) {
            let r = self.values.remove(&key);
            self.tree.remove(key);
            proof {
                assert(self.values@.dom() =~= self.tree@);
            }
            r
        } else {
            None
        }
    }

    /// The largest key `<= k`.
    pub fn floor_key(&self, k: u64) -> (r: Option<u64>)
        requires
            self.wf(),
        ensures
            is_greatest_below(self@.dom(), k, true, r),
    {
        self.tree.floor_key(k)
    }

    /// The smallest key `>= k`.
    pub fn ceil_key(&self, k: u64) -> (r: Option<u64>)
        requires
            self.wf(),
        ensures
            is_least_above(self@.dom(), k, true, r),
    {
        self.tree.ceil_key(k)
    }

    /// The largest key `< k`.
    pub fn lower(&self, k: u64) -> (r: Option<u64>)
        requires
            self.wf(),
        ensures
            is_greatest_below(self@.dom(), k, false, r),
    {
        self.tree.lower(k)
    }

    /// The smallest key `> k`.
    pub fn higher(&self, k: u64) -> (r: Option<u64>)
        requires
            self.wf(),
        ensures
            is_least_above(self@.dom(), k, false, r),
    {
        self.tree.higher(k)
    }

    /// The smallest key, or none if the map is empty.
    pub fn min_key(&self) -> (r: Option<u64>)
        requires
            self.wf(),
        ensures
            is_least_above(self@.dom(), 0, true, r),
    {
        self.tree.min()
    }

    /// The largest key, or none if the map is empty.
    pub fn max_key(&self) -> (r: Option<u64>)
        requires
            self.wf(),
        ensures
            is_greatest_below(self@.dom(), u64::MAX, true, r),
    {
        self.tree.max()
    }

    /// A cursor over all keys, in order.
    pub fn keys(&self) -> (r: Keys<'_>)
        requires
            self.wf(),
        ensures
            r.wf(),
            r@ == self@.dom(),
    {
        Keys::new_unbounded(&self.tree)
    }

    /// A cursor over all entries, in key order.
    pub fn iter(&self) -> (r: Iter<'_, V>)
        requires
            self.wf(),
        ensures
            r.wf(),
            r@ == self@.dom(),
            r.entries() == self@,
    {
        Iter::new(Keys::new_unbounded(&self.tree), &self.values)
    }

    /// A cursor over all values, in key order.
    pub fn values(&self) -> (r: Values<'_, V>)
        requires
            self.wf(),
        ensures
            r.wf(),
            r@ == self@.dom(),
            r.entries() == self@,
    {
        Values::new(self.iter())
    }

    /// A cursor over all entries in key order that lends out each value for
    /// change in place, one entry per step, from the map handed to each step.
    pub fn iter_mut(&self) -> (r: IterMut)
        requires
            self.wf(),
        ensures
            r.wf(self.index()),
            r.remaining(self.index()) == self.index(),
    {
        let r = IterMut::new(Cursor::new(&self.tree, Bound::Unbounded, Bound::Unbounded));
        assert(r.remaining(self.index()) =~= self.index());
        r
    }

    /// A cursor over all values in key order that lends out each one for
    /// change in place, from the map handed to each step.
    pub fn values_mut(&self) -> (r: ValuesMut)
        requires
            self.wf(),
        ensures
            r.wf(self.index()),
            r.remaining(self.index()) == self.index(),
    {
        ValuesMut::new(self.iter_mut())
    }

    /// A cursor over the entries whose keys lie from `min` to `max`, in key order.
    pub fn range(&self, min: Bound, max: Bound) -> (r: Iter<'_, V>)
        requires
            self.wf(),
        ensures
            r.wf(),
            r@ == keys_in_range(self@.dom(), min, max),
            r.entries() == self@,
    {
        Iter::new(Keys::new(&self.tree, min, max), &self.values)
    }
}

/// The ordered index and the value store agree: a key is in the index exactly
/// when it has a value, and the map has as many entries as the index has keys.
pub proof fn lemma_index_matches_values<V>(map: &TreeMap<V>)
    requires
        map.wf(),
    ensures
        forall|k: u64| map.index().contains(k) == map@.contains_key(k),
        map@.dom().finite(),
{
    lemma_key_count(&map.tree);
}

/// A value stored under a key is the one read back, a second store under the
/// same key replaces it, and the second store does not change the number of
/// entries.
pub proof fn lemma_insert_then_get<V>(m: Map<u64, V>, k: u64, v1: V, v2: V)
    requires
        m.dom().finite(),
    ensures
        m.insert(k, v1).contains_key(k),
        m.insert(k, v1)[k] == v1,
        m.insert(k, v1).insert(k, v2)[k] == v2,
        m.insert(k, v1).insert(k, v2).dom().len() == m.insert(k, v1).dom().len(),
{
    assert(m.insert(k, v1).insert(k, v2).dom() =~= m.insert(k, v1).dom());
}

} // verus!
