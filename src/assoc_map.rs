//! A hash-backed associative map from integer keys to values.
use vstd::prelude::*;
use vstd::std_specs::hash::group_hash_axioms;
use std::collections::HashMap;
use std::collections::hash_map::Entry;

verus! {

broadcast use group_hash_axioms;

/// A map with at most one value per key. Iteration order is not part of its
/// meaning: its view is a mathematical map.
pub struct AssocMap<V> {
    table: HashMap<u64, V>,
}

impl<V> View for AssocMap<V> {
    type V = Map<u64, V>;

    closed spec fn view(&self) -> Map<u64, V> {
        self.table@
    }
}

/// Right after `key` is given `value`, looking `key` up finds `value`, and
/// the map has grown by one entry if the key was new and not at all otherwise.
pub proof fn lemma_insert_then_get<V>(m: Map<u64, V>, key: u64, value: V)
    requires
        m.dom().finite(),
    ensures
        m.insert(key, value).contains_key(key),
        m.insert(key, value)[key] == value,
        m.insert(key, value).len() == (if m.contains_key(key) { m.len() } else { m.len() + 1 }),
{
    if m.contains_key(key) {
        assert(m.insert(key, value).dom() =~= m.dom());
    }
}

impl<V> AssocMap<V> {
    /// An empty map.
    pub fn new() -> (m: Self)
        ensures
            m@ == Map::<u64, V>::empty(),
    {
        AssocMap { table: HashMap::new() }
    }

    /// Gives `key` the value `value`, replacing and returning any value it had.
    pub fn insert(&mut self, key: u64, value: V) -> (r: Option<V>)
        ensures
            final(self)@ == old(self)@.insert(key, value),
            r == (if old(self)@.contains_key(key) { Some(old(self)@[key]) } else { None }),
    {
        self.table.insert(key, value)
    }

    /// The value of `key`; `None` when the key is absent.
    pub fn get(&self, key: u64) -> (r: Option<&V>)
        ensures
            r == (if self@.contains_key(key) { Some(&self@[key]) } else { None }),
    {
        self.table.get(&key)
    }

    /// A handle through which the value of `key` can be changed in place;
    /// `None` when the key is absent.
    pub fn get_mut(&mut self, key: u64) -> (r: Option<&mut V>)
        ensures
            match r {
                Some(v) => {
                    &&& old(self)@.contains_key(key)
                    &&& *v == old(self)@[key]
                    &&& final(self)@ == old(self)@.insert(key, *final(v))
                },
                None => !old(self)@.contains_key(key) && final(self)@ == old(self)@,
            },
    {
        match self.table.entry(key) {
            Entry::Occupied(o) => Some(o.into_mut()),
            Entry::Vacant(_) => None,
        }
    }

    /// Whether `key` has a value.
    pub fn contains(&self, key: u64) -> (r: bool)
        ensures
            r == self@.contains_key(key),
    {
        self.table.contains_key(&key)
    }

    /// Removes `key`, returning the value it had; `None` when it was absent.
    pub fn remove(&mut self, key: u64) -> (r: Option<V>)
        ensures
            final(self)@ == old(self)@.remove(key),
            r == (if old(self)@.contains_key(key) { Some(old(self)@[key]) } else { None }),
    {
        self.table.remove(&key)
    }

    /// A handle to the value of `key`, which is first given `default` if it
    /// had none; what is written through the handle becomes its value.
    pub fn entry_or_insert(&mut self, key: u64, default: V) -> (r: &mut V)
        ensures
            *r == (if old(self)@.contains_key(key) { old(self)@[key] } else { default }),
            final(self)@ == old(self)@.insert(key, *final(r)),
    {
        self.table.entry(key).or_insert(default)
    }

    /// The number of keys with a value.
    pub fn size(&self) -> (r: usize)
        ensures
            r == self@.len(),
    {
        self.table.len()
    }
}

} // verus!
