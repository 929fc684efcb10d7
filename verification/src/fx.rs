//! Hashed collections keyed by integers, as `rustc_hash` provides them.
//!
//! `FxHashSet` and `FxHashMap` are the standard hash set and hash map with
//! `rustc_hash::FxBuildHasher` as their hasher.  The functions here call their
//! methods, and state what each does to the contents.  Nothing in this file
//! is proved: these contracts are what the rest of the crate takes on trust.

use rustc_hash::FxBuildHasher;
use rustc_hash::FxHashMap;
use rustc_hash::FxHashSet;
use vstd::prelude::*;

verus! {

/// `rustc_hash::FxBuildHasher`, the hasher of every collection in this crate.
/// It is a unit struct; each hasher it builds starts from the same state.
#[verifier::external_type_specification]
#[verifier::external_body]
pub struct ExFxBuildHasher(FxBuildHasher);

/// Calls `HashSet::insert` on a set that hashes with `FxBuildHasher`.
///
/// Trusted: afterwards the set holds `k` besides what it held, and the
/// result says whether `k` was new.
#[verifier::external_body]
pub(crate) fn fx_set_insert(s: &mut FxHashSet<u64>, k: u64) -> (fresh: bool)
    ensures
        final(s)@ == old(s)@.insert(k),
        fresh == !old(s)@.contains(k),
{
    s.insert(k)
}

/// Calls `HashSet::remove` on a set that hashes with `FxBuildHasher`.
///
/// Trusted: afterwards the set holds what it held except `k`, and the result
/// says whether `k` was there.
#[verifier::external_body]
pub(crate) fn fx_set_remove(s: &mut FxHashSet<u64>, k: u64) -> (present: bool)
    ensures
        final(s)@ == old(s)@.remove(k),
        present == old(s)@.contains(k),
{
    s.remove(&k)
}

/// Calls `HashSet::contains` on a set that hashes with `FxBuildHasher`.
///
/// Trusted: the result says whether the set holds `k`.
#[verifier::external_body]
pub(crate) fn fx_set_contains(s: &FxHashSet<u64>, k: u64) -> (present: bool)
    ensures
        present == s@.contains(k),
{
    s.contains(&k)
}

/// Walks a set that hashes with `FxBuildHasher` by `HashSet::iter`.
///
/// Trusted: every key of the set comes out, once.  Nothing is said of the
/// order.
#[verifier::external_body]
pub(crate) fn fx_set_keys(s: &FxHashSet<u64>) -> (keys: Vec<u64>)
    ensures
        keys@.no_duplicates(),
        keys@.to_set() == s@,
{
    s.iter().copied().collect()
}

/// Calls `HashMap::insert` on a map that hashes with `FxBuildHasher`.
///
/// Trusted: afterwards the map sends `k` to `v` and is otherwise as before,
/// and the result is what `k` was sent to before, if anything.
#[verifier::external_body]
pub(crate) fn fx_map_insert<V>(m: &mut FxHashMap<u64, V>, k: u64, v: V) -> (prev: Option<V>)
    ensures
        final(m)@ == old(m)@.insert(k, v),
        prev == (if old(m)@.contains_key(k) {
            Some(old(m)@[k])
        } else {
            None
        }),
{
    m.insert(k, v)
}

/// Calls `HashMap::remove` on a map that hashes with `FxBuildHasher`.
///
/// Trusted: afterwards the map has no entry for `k` and is otherwise as
/// before, and the result is what `k` was sent to, if anything.
#[verifier::external_body]
pub(crate) fn fx_map_remove<V>(m: &mut FxHashMap<u64, V>, k: u64) -> (prev: Option<V>)
    ensures
        final(m)@ == old(m)@.remove(k),
        prev == (if old(m)@.contains_key(k) {
            Some(old(m)@[k])
        } else {
            None
        }),
{
    m.remove(&k)
}

/// Calls `HashMap::get` on a map that hashes with `FxBuildHasher`.
///
/// Trusted: the result is what the map sends `k` to, if anything.
#[verifier::external_body]
pub(crate) fn fx_map_get<V>(m: &FxHashMap<u64, V>, k: u64) -> (found: Option<&V>)
    ensures
        found == (if m@.contains_key(k) {
            Some(&m@[k])
        } else {
            None
        }),
{
    m.get(&k)
}

/// Walks the keys of a map that hashes with `FxBuildHasher` by
/// `HashMap::keys`.
///
/// Trusted: every key of the map comes out, once.  Nothing is said of the
/// order.
#[verifier::external_body]
pub(crate) fn fx_map_keys<V>(m: &FxHashMap<u64, V>) -> (keys: Vec<u64>)
    ensures
        keys@.no_duplicates(),
        keys@.to_set() == m@.dom(),
{
    m.keys().copied().collect()
}

} // verus!
