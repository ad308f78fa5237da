//! Hash collections keyed by indices, on the fixed-seed hasher of `rustc_hash`.
use rustc_hash::{FxBuildHasher, FxHashMap, FxHashSet};
use vstd::prelude::*;

verus! {

/// The hasher of `rustc_hash`: a unit struct that builds hashers with a fixed seed.
#[verifier::external_type_specification]
#[verifier::external_body]
pub struct ExFxBuildHasher(FxBuildHasher);

/// `FxHashSet::default`: a new set holds nothing.
#[verifier::external_body]
pub(crate) fn set_new() -> (s: FxHashSet<usize>)
    ensures
        s@ == Set::<usize>::empty(),
{
    FxHashSet::default()
}

/// `FxHashSet::insert`: the set gains `k`; the result says whether `k` is new to it.
#[verifier::external_body]
pub(crate) fn set_insert(s: &mut FxHashSet<usize>, k: usize) -> (fresh: bool)
    ensures
        final(s)@ == old(s)@.insert(k),
        fresh == !old(s)@.contains(k),
{
    s.insert(k)
}

/// `FxHashSet::contains`: whether `k` is in the set.
#[verifier::external_body]
pub(crate) fn set_contains(s: &FxHashSet<usize>, k: usize) -> (found: bool)
    ensures
        found == s@.contains(k),
{
    s.contains(&k)
}

/// `FxHashSet::remove`: the set loses `k`.
#[verifier::external_body]
pub(crate) fn set_remove(s: &mut FxHashSet<usize>, k: usize)
    ensures
        final(s)@ == old(s)@.remove(k),
{
    s.remove(&k);
}

/// `FxHashMap::default`: a new map holds nothing.
#[verifier::external_body]
pub(crate) fn map_new<V>() -> (m: FxHashMap<usize, V>)
    ensures
        m@.dom() == Set::<usize>::empty(),
{
    FxHashMap::default()
}

/// `FxHashMap::insert`: `k` now leads to `v`; the value it led to before is dropped.
#[verifier::external_body]
pub(crate) fn map_insert<V>(m: &mut FxHashMap<usize, V>, k: usize, v: V)
    ensures
        final(m)@ == old(m)@.insert(k, v),
{
    m.insert(k, v);
}

/// `FxHashMap::get`: the value that `k` leads to, if there is one.
#[verifier::external_body]
pub(crate) fn map_get<V>(m: &FxHashMap<usize, V>, k: usize) -> (v: Option<&V>)
    ensures
        v == if m@.contains_key(k) {
            Some(&m@[k])
        } else {
            None
        },
{
    m.get(&k)
}

} // verus!
