//! Contracts for the hash collections of `rustc_hash`.
//!
//! `FxHashMap` and `FxHashSet` are the standard collections with a fixed,
//! deterministic hasher. Their contents are spoken of through the usual
//! views, `Map` and `Set`. Nothing in this file is proved: each function
//! states what the collection's own source and documentation give.

use crate::machine::Machine;
use crate::par::machines_of;
use crate::transducer::Transducer;
use rustc_hash::FxBuildHasher;
use rustc_hash::FxHashMap;
use rustc_hash::FxHashSet;
use std::hash::Hash;
use vstd::prelude::*;
use vstd::std_specs::hash::obeys_key_model;

verus! {

/// The hasher builder behind `FxHashMap` and `FxHashSet`, carried through as
/// an opaque type.
#[verifier::external_type_specification]
#[verifier::external_body]
pub struct ExFxBuildHasher(FxBuildHasher);

/// `FxHashMap::default`: a map without entries.
#[verifier::external_body]
pub(crate) fn map_new<K, V>() -> (m: FxHashMap<K, V>)
    ensures
        m@ =~= Map::empty(),
{
    FxHashMap::default()
}

/// `HashMap::insert`: afterwards the key is bound to the value, and every
/// other key is bound as before.
#[verifier::external_body]
pub(crate) fn map_insert<K: Eq + Hash, V>(m: &mut FxHashMap<K, V>, k: K, v: V)
    requires
        obeys_key_model::<K>(),
    ensures
        final(m)@ == old(m)@.insert(k, v),
{
    m.insert(k, v);
}

/// `HashMap::get`: the value bound to the key, if the key is bound.
#[verifier::external_body]
pub(crate) fn map_get<K: Eq + Hash, V: Copy>(m: &FxHashMap<K, V>, k: &K) -> (r: Option<V>)
    requires
        obeys_key_model::<K>(),
    ensures
        r == (if m@.contains_key(*k) { Some(m@[*k]) } else { None::<V> }),
{
    match m.get(k) {
        Some(v) => Some(*v),
        None => None,
    }
}

/// `HashMap::iter`: every entry of the map exactly once, in an order that
/// the map does not promise.
#[verifier::external_body]
pub(crate) fn map_entries<K: Eq + Hash + Copy, V: Copy>(m: &FxHashMap<K, V>) -> (r: Vec<(K, V)>)
    requires
        obeys_key_model::<K>(),
    ensures
        forall|i: int| 0 <= i < r@.len() ==> m@.contains_key(#[trigger] r@[i].0) && m@[r@[i].0] == r@[i].1,
        forall|k: K| m@.contains_key(k) ==> exists|i: int| 0 <= i < r@.len() && #[trigger] r@[i].0 == k,
        forall|i: int, j: int| 0 <= i < j < r@.len() ==> #[trigger] r@[i].0 != #[trigger] r@[j].0,
{
    m.iter().map(|(k, v)| (*k, *v)).collect()
}


/// The machines of the transducers that a set holds. Two transducers are
/// one item of a set exactly where they are the same machine: the equality
/// and the hash of `Transducer` go by its two tables.
pub open spec fn members(s: &FxHashSet<Transducer>) -> Set<Machine> {
    s@.map(|t: Transducer| t@)
}

/// `FxHashSet::default`: a set without items.
#[verifier::external_body]
pub(crate) fn set_new() -> (s: FxHashSet<Transducer>)
    ensures
        members(&s) =~= Set::empty(),
{
    FxHashSet::default()
}

/// `HashSet::insert`: afterwards the set holds the item, and what it held
/// before.
#[verifier::external_body]
pub(crate) fn set_insert(s: &mut FxHashSet<Transducer>, t: Transducer)
    ensures
        members(final(s)) == members(old(s)).insert(t@),
{
    s.insert(t);
}

/// `HashSet::contains`: whether the set holds the item.
#[verifier::external_body]
pub(crate) fn set_contains(s: &FxHashSet<Transducer>, t: &Transducer) -> (r: bool)
    ensures
        r == members(s).contains(t@),
{
    s.contains(t)
}

/// `HashSet::iter`: every item of the set, in an order that the set does not
/// promise.
#[verifier::external_body]
pub(crate) fn set_items(s: &FxHashSet<Transducer>) -> (r: Vec<Transducer>)
    ensures
        forall|m: Machine| machines_of(r@).contains(m) <==> members(s).contains(m),
{
    s.iter().cloned().collect()
}

} // verus!
