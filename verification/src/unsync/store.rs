//! The hash table that holds the entries of a cache.
//!
//! Keys are shared with the lists of the cache, so the table is keyed by `Rc<K>`. The key model
//! of vstd covers a table keyed by `K` itself and has no fact about `Rc<K>`; the functions here
//! state it for that case. `Rc<K>` hashes and compares as the `K` inside it.

use std::collections::HashMap;
use std::hash::{BuildHasher, Hash};
use std::rc::Rc;
use vstd::prelude::*;

verus! {

/// [`HashMap::with_hasher`] makes an empty table.
#[verifier::external_body]
pub(crate) fn empty_store<K, E, S>(build_hasher: S) -> (store: HashMap<Rc<K>, E, S>)
    ensures
        (store@ == Map::<Rc<K>, E>::empty()),
{
    HashMap::with_hasher(build_hasher)
}

/// [`HashMap::try_reserve`] makes room for `additional` more entries, or fails without
/// panicking where there is no such room. The contents stay.
#[verifier::external_body]
pub(crate) fn try_reserve<K: Hash + Eq, E, S: BuildHasher>(
    store: &mut HashMap<Rc<K>, E, S>,
    additional: usize,
) -> (reserved: bool)
    ensures
        final(store)@ == old(store)@,
{
    store.try_reserve(additional).is_ok()
}

/// [`HashMap::get`] returns what the table holds for a key.
#[verifier::external_body]
pub(crate) fn get<'a, K: Hash + Eq, E, S: BuildHasher>(
    store: &'a HashMap<Rc<K>, E, S>,
    key: &K,
) -> (entry: Option<&'a E>)
    requires
        vstd::std_specs::hash::obeys_key_model::<K>(),
        vstd::std_specs::hash::builds_valid_hashers::<S>(),
    ensures
        match entry {
            Some(entry) => store@.contains_key(Rc::new(*key)) && *entry == store@[Rc::new(*key)],
            None => !store@.contains_key(Rc::new(*key)),
        },
{
    store.get(key)
}

/// [`HashMap::insert`] sets what the table holds for a key and returns what it held before.
#[verifier::external_body]
pub(crate) fn insert<K: Hash + Eq, E, S: BuildHasher>(
    store: &mut HashMap<Rc<K>, E, S>,
    key: Rc<K>,
    entry: E,
) -> (replaced: Option<E>)
    requires
        vstd::std_specs::hash::obeys_key_model::<K>(),
        vstd::std_specs::hash::builds_valid_hashers::<S>(),
    ensures
        final(store)@ == old(store)@.insert(key, entry),
        match replaced {
            Some(replaced) => old(store)@.contains_key(key) && replaced == old(store)@[key],
            None => !old(store)@.contains_key(key),
        },
{
    store.insert(key, entry)
}

/// [`HashMap::remove`] takes a key out of the table and returns what the table held for it.
#[verifier::external_body]
pub(crate) fn remove<K: Hash + Eq, E, S: BuildHasher>(
    store: &mut HashMap<Rc<K>, E, S>,
    key: &K,
) -> (removed: Option<E>)
    requires
        vstd::std_specs::hash::obeys_key_model::<K>(),
        vstd::std_specs::hash::builds_valid_hashers::<S>(),
    ensures
        final(store)@ == old(store)@.remove(Rc::new(*key)),
        match removed {
            Some(removed) => old(store)@.contains_key(Rc::new(*key)) && removed == old(
                store,
            )@[Rc::new(*key)],
            None => !old(store)@.contains_key(Rc::new(*key)),
        },
{
    store.remove(key)
}

/// [`BuildHasher::hash_one`] hashes a key. The hash depends on how the hasher was seeded, which
/// differs from process to process, so nothing is claimed of it.
#[verifier::external_body]
fn hash_one<K: Hash, S: BuildHasher>(build_hasher: &S, key: &K) -> (hash: u64) {
    build_hasher.hash_one(key)
}

/// Whether `hash` is what `build_hasher` may make of `key`.
pub closed spec fn may_hash<K: Hash, S: BuildHasher>(build_hasher: S, key: K, hash: u64) -> bool {
    call_ensures(hash_one::<K, S>, (&build_hasher, &key), hash)
}

/// A hash that may be made of a key is what hashing the key gives, and nothing else.
proof fn law_hash_is_of_key<K: Hash, S: BuildHasher>(build_hasher: S, key: K, hash: u64)
    requires
        may_hash(build_hasher, key, hash),
    ensures
        call_ensures(hash_one::<K, S>, (&build_hasher, &key), hash),
{
}

/// Hashes a key.
pub(crate) fn hash<K: Hash, S: BuildHasher>(build_hasher: &S, key: &K) -> (hash: u64)
    ensures
        may_hash(*build_hasher, *key, hash),
{
    hash_one(build_hasher, key)
}

} // verus!
