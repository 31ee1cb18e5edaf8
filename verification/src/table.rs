//! Hash tables keyed by integers, hashed with FNV.
//!
//! The tables are `std::collections::HashMap` with the hasher of the `fnv`
//! crate. Their content is the view that `vstd` gives every `HashMap`; the
//! operations below say what they do to it.

use fnv::FnvHashMap;
use std::hash::Hash;
use vstd::prelude::*;
use vstd::std_specs::hash::obeys_key_model;

verus! {

/// The state of one FNV hash computation, `fnv::FnvHasher`.
#[verifier::external_type_specification]
#[verifier::external_body]
pub struct ExFnvHasher(fnv::FnvHasher);

/// The factory that makes every table start from the same hasher state,
/// `std::hash::BuildHasherDefault`.
#[verifier::external_type_specification]
#[verifier::external_body]
#[verifier::reject_recursive_types(H)]
pub struct ExBuildHasherDefault<H>(std::hash::BuildHasherDefault<H>);

/// `HashMap::insert` on a table hashed with FNV: afterwards `key` maps to
/// `value` and every other key is as before.
#[verifier::external_body]
pub(crate) fn insert<K: Eq + Hash, V>(table: &mut FnvHashMap<K, V>, key: K, value: V)
    requires
        obeys_key_model::<K>(),
    ensures
        final(table)@ == old(table)@.insert(key, value),
{
    table.insert(key, value);
}

/// `HashMap::get` on a table hashed with FNV: the value that `key` maps to,
/// if it maps to one.
#[verifier::external_body]
pub(crate) fn get<K: Eq + Hash, V: Copy>(table: &FnvHashMap<K, V>, key: K) -> (r: Option<V>)
    requires
        obeys_key_model::<K>(),
    ensures
        r == (if table@.contains_key(key) {
            Some(table@[key])
        } else {
            None::<V>
        }),
{
    table.get(&key).copied()
}

} // verus!
