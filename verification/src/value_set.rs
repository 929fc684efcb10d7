//! Sets of SSA values.

use crate::fx::fx_set_contains;
use crate::fx::fx_set_insert;
use crate::fx::fx_set_keys;
use crate::fx::fx_set_remove;
use crate::ir::MAX_SSA_IDX;
use crate::ir::RegFile;
use crate::ir::SSAValue;
use rustc_hash::FxHashSet;
use std::collections::HashSet;
use vstd::prelude::*;
use vstd::set_lib::lemma_int_range;
use vstd::set_lib::lemma_len_subset;
use vstd::set_lib::lemma_map_size;
use vstd::set_lib::set_int_range;

verus! {

/// A finite set of SSA values, hashed by their keys.
pub struct ValueSet {
    keys: FxHashSet<u64>,
}

impl View for ValueSet {
    type V = Set<SSAValue>;

    closed spec fn view(&self) -> Set<SSAValue> {
        Set::new(|v: SSAValue| self.keys@.contains(v.key()))
    }
}

/// The members of `s` that live in `file`.
pub open spec fn in_file(s: Set<SSAValue>, file: RegFile) -> Set<SSAValue> {
    s.filter(|v: SSAValue| v.file() == file)
}

/// How many members of `s` live in `file`.
pub open spec fn count_in_file(s: Set<SSAValue>, file: RegFile) -> nat {
    in_file(s, file).len()
}

/// Every member of `s` has a valid index.
pub open spec fn all_valid(s: Set<SSAValue>) -> bool {
    forall|v: SSAValue| s.contains(v) ==> v.idx() < MAX_SSA_IDX
}

/// The members of a finite set that live in one file are finitely many.
pub proof fn lemma_in_file_finite(s: Set<SSAValue>, file: RegFile)
    requires
        s.finite(),
    ensures
        in_file(s, file).finite(),
        in_file(s, file).len() <= s.len(),
{
    s.lemma_len_filter(|v: SSAValue| v.file() == file);
}

/// A finite set of valid SSA values holds fewer values of one file than
/// there are valid indices.
pub proof fn lemma_count_bounded(s: Set<SSAValue>, file: RegFile)
    requires
        s.finite(),
        all_valid(s),
    ensures
        count_in_file(s, file) <= MAX_SSA_IDX,
{
    broadcast use SSAValue::lemma_key_injective, SSAValue::lemma_key_parts;

    let t = in_file(s, file);
    lemma_in_file_finite(s, file);
    let f = |v: SSAValue| v.key() as int;
    let lo: int = (file.index() * 0x1_0000_0000) as int;
    let hi: int = lo + MAX_SSA_IDX;
    let img = t.map(f);
    assert(vstd::relations::injective(f)) by {
        assert forall|a: SSAValue, b: SSAValue| #[trigger] f(a) == #[trigger] f(b) implies a
            == b by {
            assert(a.key() == b.key());
        }
    }
    lemma_map_size(t, img, f);
    lemma_int_range(lo, hi);
    assert(img.subset_of(set_int_range(lo, hi))) by {
        assert forall|x: int| img.contains(x) implies set_int_range(lo, hi).contains(x) by {
            let v = choose|v: SSAValue| t.contains(v) && f(v) == x;
            assert(v.key() / 0x1_0000_0000 == file.index());
            assert(v.key() % 0x1_0000_0000 == v.idx());
        }
    }
    lemma_len_subset(img, set_int_range(lo, hi));
}

/// What putting a value into a set does to the count of each file.
pub proof fn lemma_count_insert(s: Set<SSAValue>, v: SSAValue, file: RegFile)
    requires
        s.finite(),
    ensures
        count_in_file(s.insert(v), file) == count_in_file(s, file) + (if !s.contains(v)
            && v.file() == file {
            1nat
        } else {
            0nat
        }),
{
    lemma_in_file_finite(s, file);
    if v.file() == file {
        assert(in_file(s.insert(v), file) =~= in_file(s, file).insert(v));
    } else {
        assert(in_file(s.insert(v), file) =~= in_file(s, file));
    }
}

/// What taking a value out of a set does to the count of each file.
pub proof fn lemma_count_remove(s: Set<SSAValue>, v: SSAValue, file: RegFile)
    requires
        s.finite(),
    ensures
        count_in_file(s.remove(v), file) == count_in_file(s, file) - (if s.contains(v) && v.file()
            == file {
            1nat
        } else {
            0nat
        }),
{
    lemma_in_file_finite(s, file);
    if v.file() == file {
        assert(in_file(s.remove(v), file) =~= in_file(s, file).remove(v));
    } else {
        assert(in_file(s.remove(v), file) =~= in_file(s, file));
    }
}

impl Clone for ValueSet {
    /// A set of the same values.
    fn clone(&self) -> (copy: ValueSet)
        ensures
            copy@ == self@,
            self.wf() ==> copy.wf(),
    {
        let ks = fx_set_keys(&self.keys);
        let mut keys: FxHashSet<u64> = HashSet::default();
        let mut i: usize = 0;
        assert(ks@.take(0).to_set() =~= Set::<u64>::empty());
        while i < ks.len()
            invariant
                i <= ks.len(),
                keys@ == ks@.take(i as int).to_set(),
            decreases ks.len() - i,
        {
            fx_set_insert(&mut keys, ks[i]);
            proof {
                assert(ks@.take(i + 1) =~= ks@.take(i as int).push(ks@[i as int]));
                ks@.take(i as int).lemma_push_to_set_commute(ks@[i as int]);
            }
            i += 1;
        }
        assert(ks@.take(i as int) =~= ks@);
        let copy = ValueSet { keys };
        assert(copy@ =~= self@);
        copy
    }
}

impl ValueSet {
    /// The set is finite and its keys are keys of valid SSA values.
    pub closed spec fn wf(&self) -> bool {
        &&& self@.finite()
        &&& forall|k: u64| self.keys@.contains(k) ==> SSAValue::valid_key(k)
    }

    /// A well-formed set is finite and holds valid SSA values only.
    pub broadcast proof fn lemma_wf(&self)
        requires
            #[trigger] self.wf(),
        ensures
            self@.finite(),
            all_valid(self@),
    {
        broadcast use SSAValue::lemma_key_parts;

        assert forall|v: SSAValue| self@.contains(v) implies v.idx() < MAX_SSA_IDX by {
            assert(SSAValue::valid_key(v.key()));
        }
    }

    /// The empty set.
    pub fn new() -> (s: ValueSet)
        ensures
            s.wf(),
            s@ == Set::<SSAValue>::empty(),
    {
        let s = ValueSet { keys: HashSet::default() };
        assert(s@ =~= Set::<SSAValue>::empty());
        s
    }

    /// Puts `v` into the set, and says whether it was new.
    pub fn insert(&mut self, v: SSAValue) -> (fresh: bool)
        requires
            old(self).wf(),
        ensures
            final(self).wf(),
            final(self)@ == old(self)@.insert(v),
            fresh == !old(self)@.contains(v),
    {
        broadcast use SSAValue::lemma_key_injective;

        let fresh = fx_set_insert(&mut self.keys, v.key());
        assert(self@ =~= old(self)@.insert(v));
        fresh
    }

    /// Takes `v` out of the set, and says whether it was there.
    pub fn remove(&mut self, v: &SSAValue) -> (present: bool)
        requires
            old(self).wf(),
        ensures
            final(self).wf(),
            final(self)@ == old(self)@.remove(*v),
            present == old(self)@.contains(*v),
    {
        broadcast use SSAValue::lemma_key_injective;

        let present = fx_set_remove(&mut self.keys, v.key());
        assert(self@ =~= old(self)@.remove(*v));
        present
    }

    /// Whether `v` is in the set.
    pub fn contains(&self, v: &SSAValue) -> (present: bool)
        ensures
            present == self@.contains(*v),
    {
        fx_set_contains(&self.keys, v.key())
    }

    /// The members of the set, each once, in no particular order.
    pub fn to_vec(&self) -> (values: Vec<SSAValue>)
        requires
            self.wf(),
        ensures
            values@.no_duplicates(),
            values@.to_set() == self@,
    {
        broadcast use SSAValue::lemma_key_injective, SSAValue::lemma_of_key,
            SSAValue::lemma_key_parts;

        let ks = fx_set_keys(&self.keys);
        let mut values: Vec<SSAValue> = Vec::new();
        let mut i: usize = 0;
        while i < ks.len()
            invariant
                i <= ks.len(),
                values.len() == i,
                ks@.to_set() == self.keys@,
                self.wf(),
                forall|j: int| 0 <= j < i ==> (#[trigger] values@[j]).key() == ks@[j],
            decreases ks.len() - i,
        {
            assert(ks@.to_set().contains(ks@[i as int]));
            values.push(SSAValue::from_key(ks[i]));
            i += 1;
        }
        assert(values@.to_set() =~= self@) by {
            assert forall|v: SSAValue| self@.contains(v) implies values@.to_set().contains(v) by {
                assert(ks@.to_set().contains(v.key()));
                let j = choose|j: int| 0 <= j < ks@.len() && ks@[j] == v.key();
                assert(values@[j].key() == v.key());
                assert(values@[j] == v);
            }
            assert forall|v: SSAValue| values@.to_set().contains(v) implies self@.contains(v) by {
                let j = choose|j: int| 0 <= j < values@.len() && values@[j] == v;
                assert(values@[j].key() == ks@[j]);
                assert(ks@.to_set().contains(ks@[j]));
            }
        }
        values
    }

    /// Puts every member of `other` into the set, and says whether the set
    /// grew.
    pub fn union_with(&mut self, other: &ValueSet) -> (changed: bool)
        requires
            old(self).wf(),
            other.wf(),
        ensures
            final(self).wf(),
            final(self)@ == old(self)@.union(other@),
            changed == (final(self)@ != old(self)@),
    {
        let vs = other.to_vec();
        let mut changed = false;
        let mut i: usize = 0;
        while i < vs.len()
            invariant
                i <= vs.len(),
                self.wf(),
                self@ == old(self)@.union(vs@.take(i as int).to_set()),
                changed == (self@ != old(self)@),
            decreases vs.len() - i,
        {
            let ghost before = self@;
            let fresh = self.insert(vs[i]);
            proof {
                assert(vs@.take(i + 1) =~= vs@.take(i as int).push(vs@[i as int]));
                vs@.take(i as int).lemma_push_to_set_commute(vs@[i as int]);
                assert(self@ =~= old(self)@.union(vs@.take(i + 1).to_set()));
                if fresh {
                    assert(self@.contains(vs@[i as int]));
                    assert(!old(self)@.contains(vs@[i as int]));
                } else {
                    assert(self@ =~= before);
                }
            }
            changed = changed || fresh;
            i += 1;
        }
        assert(vs@.take(i as int) =~= vs@);
        changed
    }
}

} // verus!
