//! The hash map behind accounts and deposit records: `rustc_hash::FxHashMap`,
//! that is std's `HashMap` with `FxHasher` as its hasher.
//!
//! `FxHasher` starts from a fixed state and folds what it is given into it
//! by rotation, xor and multiplication with a constant: equal keys hash
//! alike, in every map. The functions below rest on that. Each makes one
//! call on the map and states what the call does to the map's contents,
//! `m@`, for keys whose `Hash` and `Eq` agree with equality
//! (`obeys_key_model`, which holds of the integer types).

use rustc_hash::FxHashMap;
use rustc_hash::FxHasher;
use std::collections::hash_map::Entry;
use std::hash::BuildHasherDefault;
use std::hash::Hash;
use vstd::prelude::*;
use vstd::std_specs::hash::obeys_key_model;
use vstd::std_specs::hash::EntrySpecFns;

verus! {

/// `rustc_hash::FxHasher`, the hasher of the map. Nothing is known of a
/// value of it.
#[verifier::external_type_specification]
#[verifier::external_body]
pub struct ExFxHasher(FxHasher);

/// `std::hash::BuildHasherDefault`, which makes a hasher of the kind `H` by
/// `H::default()`. Nothing is known of a value of it.
#[verifier::external_type_specification]
#[verifier::external_body]
#[verifier::reject_recursive_types(H)]
pub struct ExBuildHasherDefault<H>(BuildHasherDefault<H>);

/// `HashMap::insert` on an [`FxHashMap`]: afterwards the map has `v` under
/// `k` and is unchanged elsewhere. The value that was under `k` is dropped.
#[verifier::external_body]
pub(crate) fn fx_insert<K: Eq + Hash, V>(m: &mut FxHashMap<K, V>, k: K, v: V)
    ensures
        obeys_key_model::<K>() ==> final(m)@ == old(m)@.insert(k, v),
{
    m.insert(k, v);
}

/// `HashMap::get` on an [`FxHashMap`]: the value under `k`, or `None`
/// where the map has no such key.
#[verifier::external_body]
pub(crate) fn fx_get<'a, K: Eq + Hash, V>(m: &'a FxHashMap<K, V>, k: &K) -> (r: Option<&'a V>)
    ensures
        obeys_key_model::<K>() ==> match r {
            Some(v) => m@.contains_key(*k) && *v == m@[*k],
            None => !m@.contains_key(*k),
        },
{
    m.get(k)
}

/// `HashMap::get_mut` on an [`FxHashMap`]: a reference to the value under
/// `k`, or `None` where the map has no such key. What is written through
/// the reference is what the map has under `k` afterwards; nothing else
/// changes.
#[verifier::external_body]
pub(crate) fn fx_get_mut<'a, K: Eq + Hash, V>(m: &'a mut FxHashMap<K, V>, k: &K) -> (r: Option<
    &'a mut V,
>)
    ensures
        obeys_key_model::<K>() ==> match r {
            Some(v) => old(m)@.contains_key(*k) && *v == old(m)@[*k] && final(m)@ == old(
                m,
            )@.insert(*k, *final(v)),
            None => !old(m)@.contains_key(*k) && final(m)@ == old(m)@,
        },
{
    m.get_mut(k)
}

/// `HashMap::entry` on an [`FxHashMap`]: the entry of `key`, which holds the
/// key and the value that the map has under it, if any. When the entry is
/// let go, the map has under `key` what the entry holds then, and is
/// unchanged elsewhere.
#[verifier::external_body]
pub(crate) fn fx_entry<'a, K: Eq + Hash, V>(m: &'a mut FxHashMap<K, V>, key: K) -> (entry: Entry<
    'a,
    K,
    V,
>)
    ensures
        obeys_key_model::<K>() ==> entry.spec_key() == key && entry.value() == old(m)@.get(key)
            && final(m)@ == (match entry.final_value() {
            Some(value) => old(m)@.insert(key, value),
            None => old(m)@.remove(key),
        }),
{
    m.entry(key)
}

/// `HashMap::keys` on an [`FxHashMap`], copied into a vector: every key of
/// the map, each once. Nothing is said of their order.
#[verifier::external_body]
pub(crate) fn fx_keys<K: Eq + Hash + Copy, V>(m: &FxHashMap<K, V>) -> (keys: Vec<K>)
    ensures
        obeys_key_model::<K>() ==> keys@.no_duplicates() && keys@.to_set() == m@.dom(),
{
    m.keys().copied().collect()
}

/// `HashMap::len` on an [`FxHashMap`]: the number of keys of the map.
#[verifier::external_body]
pub(crate) fn fx_len<K: Eq + Hash, V>(m: &FxHashMap<K, V>) -> (n: usize)
    ensures
        obeys_key_model::<K>() ==> n == m@.len(),
{
    m.len()
}

} // verus!
