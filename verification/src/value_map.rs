//! Maps from SSA values.

use crate::fx::fx_map_get;
use crate::fx::fx_map_insert;
use crate::fx::fx_map_keys;
use crate::fx::fx_map_remove;
use crate::ir::SSAValue;
use rustc_hash::FxHashMap;
use std::collections::HashMap;
use vstd::prelude::*;

verus! {

/// A finite map from SSA values to values of type `V`, hashed by the keys
/// of the SSA values.
pub struct ValueMap<V> {
    entries: FxHashMap<u64, V>,
}

impl<V> View for ValueMap<V> {
    type V = Map<SSAValue, V>;

    closed spec fn view(&self) -> Map<SSAValue, V> {
        Map::new(
            |v: SSAValue| self.entries@.contains_key(v.key()),
            |v: SSAValue| self.entries@[v.key()],
        )
    }
}

impl<V> ValueMap<V> {
    /// The map has finitely many entries and its keys are keys of valid SSA
    /// values.
    pub closed spec fn wf(&self) -> bool {
        &&& self@.dom().finite()
        &&& forall|k: u64| self.entries@.contains_key(k) ==> SSAValue::valid_key(k)
    }

    /// A well-formed map has finitely many entries.
    pub broadcast proof fn lemma_wf(&self)
        requires
            #[trigger] self.wf(),
        ensures
            self@.dom().finite(),
    {
    }

    /// The empty map.
    pub fn new() -> (m: ValueMap<V>)
        ensures
            m.wf(),
            m@ == Map::<SSAValue, V>::empty(),
    {
        let m = ValueMap { entries: HashMap::default() };
        assert(m@ =~= Map::<SSAValue, V>::empty());
        m
    }

    /// Sends `key` to `value`, and returns what it was sent to before.
    pub fn insert(&mut self, key: SSAValue, value: V) -> (prev: Option<V>)
        requires
            old(self).wf(),
        ensures
            final(self).wf(),
            final(self)@ == old(self)@.insert(key, value),
            prev == (if old(self)@.contains_key(key) {
                Some(old(self)@[key])
            } else {
                None
            }),
    {
        broadcast use SSAValue::lemma_key_injective;

        let prev = fx_map_insert(&mut self.entries, key.key(), value);
        assert(self@ =~= old(self)@.insert(key, value));
        assert(self@.dom() =~= old(self)@.dom().insert(key));
        prev
    }

    /// Takes the entry of `key` out, and returns what it was sent to.
    pub fn remove(&mut self, key: &SSAValue) -> (prev: Option<V>)
        requires
            old(self).wf(),
        ensures
            final(self).wf(),
            final(self)@ == old(self)@.remove(*key),
            prev == (if old(self)@.contains_key(*key) {
                Some(old(self)@[*key])
            } else {
                None
            }),
    {
        broadcast use SSAValue::lemma_key_injective;

        let prev = fx_map_remove(&mut self.entries, key.key());
        assert(self@ =~= old(self)@.remove(*key));
        assert(self@.dom() =~= old(self)@.dom().remove(*key));
        prev
    }

    /// What `key` is sent to, if anything.
    pub fn get(&self, key: &SSAValue) -> (found: Option<&V>)
        ensures
            found == (if self@.contains_key(*key) {
                Some(&self@[*key])
            } else {
                None
            }),
    {
        fx_map_get(&self.entries, key.key())
    }

    /// Whether the map has an entry for `key`.
    pub fn contains_key(&self, key: &SSAValue) -> (present: bool)
        ensures
            present == self@.contains_key(*key),
    {
        fx_map_get(&self.entries, key.key()).is_some()
    }

    /// The SSA values that the map has an entry for, each once, in no
    /// particular order.
    pub fn keys(&self) -> (values: Vec<SSAValue>)
        requires
            self.wf(),
        ensures
            values@.no_duplicates(),
            values@.to_set() == self@.dom(),
    {
        broadcast use SSAValue::lemma_key_injective, SSAValue::lemma_of_key,
            SSAValue::lemma_key_parts;

        let ks = fx_map_keys(&self.entries);
        let mut values: Vec<SSAValue> = Vec::new();
        let mut i: usize = 0;
        while i < ks.len()
            invariant
                i <= ks.len(),
                values.len() == i,
                ks@.to_set() == self.entries@.dom(),
                self.wf(),
                forall|j: int| 0 <= j < i ==> (#[trigger] values@[j]).key() == ks@[j],
            decreases ks.len() - i,
        {
            assert(ks@.to_set().contains(ks@[i as int]));
            values.push(SSAValue::from_key(ks[i]));
            i += 1;
        }
        assert(values@.to_set() =~= self@.dom()) by {
            assert forall|v: SSAValue| self@.dom().contains(v) implies values@.to_set().contains(
                v,
            ) by {
                assert(ks@.to_set().contains(v.key()));
                let j = choose|j: int| 0 <= j < ks@.len() && ks@[j] == v.key();
                assert(values@[j].key() == v.key());
                assert(values@[j] == v);
            }
            assert forall|v: SSAValue| values@.to_set().contains(v) implies self@.dom().contains(
                v,
            ) by {
                let j = choose|j: int| 0 <= j < values@.len() && values@[j] == v;
                assert(values@[j].key() == ks@[j]);
                assert(ks@.to_set().contains(ks@[j]));
            }
        }
        values
    }
}

} // verus!
