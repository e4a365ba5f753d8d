//! A keyed store of 64-bit values, held in a `dashmap::DashMap`. Verus does
//! not read that crate: what this module says of it is believed, not proved.

use dashmap::DashMap;
use vstd::prelude::*;

verus! {

/// The type `dashmap::DashMap`. Nothing of its inside is known here.
#[verifier::external_type_specification]
#[verifier::external_body]
#[verifier::reject_recursive_types(K)]
#[verifier::reject_recursive_types(V)]
#[verifier::reject_recursive_types(S)]
pub struct ExDashMap<K, V, S>(DashMap<K, V, S>);

/// What a store holds: for each key that is present, its value. Two keys are
/// one key when their texts are equal.
pub uninterp spec fn entries(m: DashMap<String, u64>) -> Map<Seq<char>, u64>;

/// Calls `DashMap::new`. Believed: the new store holds no key.
#[verifier::external_body]
pub(crate) fn store_new() -> (store: DashMap<String, u64>)
    ensures
        entries(store).dom() == Set::<Seq<char>>::empty(),
{
    DashMap::new()
}

/// Calls `DashMap::insert`. Believed: afterwards `key` holds `value`, whether
/// or not it held a value before, and every other key holds what it held.
#[verifier::external_body]
pub(crate) fn store_insert(m: &mut DashMap<String, u64>, key: String, value: u64)
    ensures
        entries(*final(m)) == entries(*old(m)).insert(key@, value),
{
    m.insert(key, value);
}

/// Calls `DashMap::get` and copies the value out. Believed: the result is the
/// value that `key` holds, and nothing where it holds none.
#[verifier::external_body]
pub(crate) fn store_get(m: &DashMap<String, u64>, key: &String) -> (r: Option<u64>)
    ensures
        r == (if entries(*m).dom().contains(key@) {
            Some(entries(*m)[key@])
        } else {
            None
        }),
{
    m.get(key).map(|held| *held)
}

} // verus!
