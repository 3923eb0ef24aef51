//! The foldhash maps and sets the scanners keep their bookkeeping in.
//!
//! `foldhash::HashMap` is `std::collections::HashMap` with foldhash's
//! seeded hasher; each map keeps the one hasher it was made with, so it
//! behaves as any hash map does. The wrappers below state that behaviour
//! over the map's view.

use vstd::prelude::*;

verus! {

/// foldhash's randomly seeded hasher builder.
#[verifier::external_type_specification]
#[verifier::external_body]
pub struct ExFoldState(foldhash::fast::RandomState);

/// An empty map with a freshly seeded foldhash hasher
/// (`foldhash::HashMap::default()`).
#[verifier::external_body]
pub(crate) fn map_new<K, V>() -> (r: foldhash::HashMap<K, V>)
    ensures
        r@.is_empty(),
{
    foldhash::HashMap::default()
}

/// `HashMap::get`, copying the value out: the value under `key`, if any.
#[verifier::external_body]
pub(crate) fn map_get<K: std::hash::Hash + Eq, V: Copy>(m: &foldhash::HashMap<K, V>, key: &K) -> (r: Option<V>)
    requires
        vstd::std_specs::hash::obeys_key_model::<K>(),
    ensures
        r == (if m@.contains_key(*key) { Some(m@[*key]) } else { None }),
{
    m.get(key).copied()
}

/// `HashMap::insert`: `key` now maps to `value`; an old value is dropped.
#[verifier::external_body]
pub(crate) fn map_insert<K: std::hash::Hash + Eq, V>(m: &mut foldhash::HashMap<K, V>, key: K, value: V)
    requires
        vstd::std_specs::hash::obeys_key_model::<K>(),
    ensures
        final(m)@ == old(m)@.insert(key, value),
{
    m.insert(key, value);
}

/// `HashMap::remove`: `key` no longer maps to anything.
#[verifier::external_body]
pub(crate) fn map_remove<K: std::hash::Hash + Eq, V>(m: &mut foldhash::HashMap<K, V>, key: &K)
    requires
        vstd::std_specs::hash::obeys_key_model::<K>(),
    ensures
        final(m)@ == old(m)@.remove(*key),
{
    m.remove(key);
}

/// The keys of a map, each once, in the map's own (hasher-dependent)
/// order: `HashMap::keys`, copied out.
#[verifier::external_body]
pub(crate) fn map_keys<K: Copy, V>(m: &foldhash::HashMap<K, V>) -> (r: Vec<K>)
    requires
        vstd::std_specs::hash::obeys_key_model::<K>(),
    ensures
        r@.to_set() == m@.dom(),
        r@.no_duplicates(),
{
    m.keys().copied().collect()
}

/// An empty set with a freshly seeded foldhash hasher
/// (`foldhash::HashSet::default()`).
#[verifier::external_body]
pub(crate) fn set_new<K>() -> (r: foldhash::HashSet<K>)
    ensures
        r@.is_empty(),
{
    foldhash::HashSet::default()
}

/// `HashSet::insert`: `key` is now in the set; whether it was not before.
#[verifier::external_body]
pub(crate) fn set_insert<K: std::hash::Hash + Eq>(s: &mut foldhash::HashSet<K>, key: K) -> (added: bool)
    requires
        vstd::std_specs::hash::obeys_key_model::<K>(),
    ensures
        final(s)@ == old(s)@.insert(key),
        added == !old(s)@.contains(key),
{
    s.insert(key)
}

/// `HashSet::contains`.
#[verifier::external_body]
pub(crate) fn set_contains<K: std::hash::Hash + Eq>(s: &foldhash::HashSet<K>, key: &K) -> (r: bool)
    requires
        vstd::std_specs::hash::obeys_key_model::<K>(),
    ensures
        r == s@.contains(*key),
{
    s.contains(key)
}

/// `HashSet::remove`: `key` is no longer in the set; whether it was.
#[verifier::external_body]
pub(crate) fn set_remove<K: std::hash::Hash + Eq>(s: &mut foldhash::HashSet<K>, key: &K) -> (r: bool)
    requires
        vstd::std_specs::hash::obeys_key_model::<K>(),
    ensures
        final(s)@ == old(s)@.remove(*key),
        r == old(s)@.contains(*key),
{
    s.remove(key)
}

/// `HashSet::is_empty`.
#[verifier::external_body]
pub(crate) fn set_is_empty<K>(s: &foldhash::HashSet<K>) -> (r: bool)
    ensures
        r == s@.is_empty(),
{
    s.is_empty()
}

/// `HashMap::get`: a reference to the value under `key`, if any.
#[verifier::external_body]
pub(crate) fn map_get_ref<'a, K: std::hash::Hash + Eq, V>(m: &'a foldhash::HashMap<K, V>, key: &K) -> (r: Option<&'a V>)
    requires
        vstd::std_specs::hash::obeys_key_model::<K>(),
    ensures
        match r {
            Some(v) => m@.contains_key(*key) && *v == m@[*key],
            None => !m@.contains_key(*key),
        },
{
    m.get(key)
}

/// `HashMap::is_empty`.
#[verifier::external_body]
pub(crate) fn map_is_empty<K, V>(m: &foldhash::HashMap<K, V>) -> (r: bool)
    ensures
        r == m@.is_empty(),
{
    m.is_empty()
}

/// `HashMap::get` on a map keyed by pairs of integers, whose equality and
/// hash are those of the two numbers: the value under `key`, if any.
#[verifier::external_body]
pub(crate) fn pair_map_get(m: &foldhash::HashMap<(u64, u64), u64>, key: &(u64, u64)) -> (r: Option<u64>)
    ensures
        r == (if m@.contains_key(*key) { Some(m@[*key]) } else { None }),
{
    m.get(key).copied()
}

/// `HashMap::insert` on a map keyed by pairs of integers: `key` now maps
/// to `value`.
#[verifier::external_body]
pub(crate) fn pair_map_insert(m: &mut foldhash::HashMap<(u64, u64), u64>, key: (u64, u64), value: u64)
    ensures
        final(m)@ == old(m)@.insert(key, value),
{
    m.insert(key, value);
}

/// `HashMap::remove` on a map keyed by pairs of integers: `key` no longer
/// maps to anything.
#[verifier::external_body]
pub(crate) fn pair_map_remove(m: &mut foldhash::HashMap<(u64, u64), u64>, key: &(u64, u64))
    ensures
        final(m)@ == old(m)@.remove(*key),
{
    m.remove(key);
}

} // verus!
