use std::collections::HashMap;
use std::hash::Hash;
use vstd::prelude::*;
use vstd::std_specs::hash::obeys_key_model;

verus! {

broadcast use vstd::std_specs::hash::group_hash_axioms;

/// An unordered map from keys to values, kept under a namespace prefix. Each
/// key addresses exactly one entry. The entries live in a hash table of the
/// map's own, so two maps never share an address; the prefix names the map's
/// part of the store.
pub struct LookupMap<K, V> {
    prefix: Vec<u8>,
    entries: HashMap<K, V>,
}

/// Relies on `HashMap::get_mut`: a reference to the value stored under `key`,
/// if any, through which that value and nothing else in the map changes.
#[verifier::external_body]
fn value_mut<'a, K: Hash + Eq, V>(entries: &'a mut HashMap<K, V>, key: &K) -> (r: Option<&'a mut V>)
    requires
        obeys_key_model::<K>(),
    ensures
        match r {
            Some(v) => {
                &&& old(entries)@.contains_key(*key)
                &&& *v == old(entries)@[*key]
                &&& final(entries)@ == old(entries)@.insert(*key, *final(v))
            },
            None => !old(entries)@.contains_key(*key) && final(entries)@ == old(entries)@,
        },
{
    entries.get_mut(key)
}

impl<K, V> View for LookupMap<K, V> {
    type V = Map<K, V>;

    closed spec fn view(&self) -> Map<K, V> {
        self.entries@
    }
}

impl<K: Hash + Eq, V> LookupMap<K, V> {
    /// The namespace prefix under which the entries are stored.
    pub closed spec fn namespace(&self) -> Seq<u8> {
        self.prefix@
    }

    /// An empty map stored under `prefix`.
    pub fn new(prefix: Vec<u8>) -> (r: Self)
        ensures
            r@ == Map::<K, V>::empty(),
            r.namespace() == prefix@,
    {
        LookupMap { prefix, entries: HashMap::new() }
    }

    pub fn prefix(&self) -> (r: &Vec<u8>)
        ensures
            r@ == self.namespace(),
    {
        &self.prefix
    }

    pub fn get(&self, key: &K) -> (r: Option<&V>)
        requires
            obeys_key_model::<K>(),
        ensures
            match r {
                Some(v) => self@.contains_key(*key) && *v == self@[*key],
                None => !self@.contains_key(*key),
            },
    {
        self.entries.get(key)
    }

    pub fn contains_key(&self, key: &K) -> (r: bool)
        requires
            obeys_key_model::<K>(),
        ensures
            r == self@.contains_key(*key),
    {
        self.entries.contains_key(key)
    }

    /// A reference through which the value under `key` can be changed in place.
    pub fn get_mut(&mut self, key: &K) -> (r: Option<&mut V>)
        requires
            obeys_key_model::<K>(),
        ensures
            final(self).namespace() == old(self).namespace(),
            match r {
                Some(v) => {
                    &&& old(self)@.contains_key(*key)
                    &&& *v == old(self)@[*key]
                    &&& final(self)@ == old(self)@.insert(*key, *final(v))
                },
                None => !old(self)@.contains_key(*key) && final(self)@ == old(self)@,
            },
    {
        value_mut(&mut self.entries, key)
    }

    /// Stores `value` under `key` and hands back the value it replaced.
    pub fn insert(&mut self, key: K, value: V) -> (r: Option<V>)
        requires
            obeys_key_model::<K>(),
        ensures
            final(self)@ == old(self)@.insert(key, value),
            final(self).namespace() == old(self).namespace(),
            match r {
                Some(v) => old(self)@.contains_key(key) && v == old(self)@[key],
                None => !old(self)@.contains_key(key),
            },
    {
        self.entries.insert(key, value)
    }

    /// Deletes the entry of `key` and hands back its value.
    pub fn remove(&mut self, key: &K) -> (r: Option<V>)
        requires
            obeys_key_model::<K>(),
        ensures
            final(self)@ == old(self)@.remove(*key),
            final(self).namespace() == old(self).namespace(),
            match r {
                Some(v) => old(self)@.contains_key(*key) && v == old(self)@[*key],
                None => !old(self)@.contains_key(*key),
            },
    {
        self.entries.remove(key)
    }
}

} // verus!
