//! The encoder's dictionary: token bytes mapped to the stream offset of the
//! token's first occurrence, held in an `ahash` hash map.

use vstd::prelude::*;
use ahash::AHashMap;
use ahash::RandomState;

verus! {

#[verifier::external_type_specification]
#[verifier::external_body]
pub struct ExRandomState(RandomState);

#[verifier::external_type_specification]
#[verifier::external_body]
#[verifier::reject_recursive_types(K)]
#[verifier::reject_recursive_types(V)]
#[verifier::reject_recursive_types(S)]
pub struct ExAHashMap<K, V, S>(AHashMap<K, V, S>);

/// The encoder-side dictionary.
pub type Dict = AHashMap<Vec<u8>, usize, RandomState>;

/// The entries a dictionary holds: token bytes to first-occurrence offset.
pub uninterp spec fn dict_entries(d: Dict) -> Map<Seq<u8>, usize>;

/// Relies on `AHashMap::new`: a freshly created map has no entries.
#[verifier::external_body]
pub(crate) fn dict_new() -> (m: Dict)
    ensures
        dict_entries(m) =~= Map::empty(),
{
    AHashMap::new()
}

/// Relies on `AHashMap::get` (delegating to `std`'s `HashMap::get`): returns
/// the value stored under a key equal to `k`, or `None` if there is none.
#[verifier::external_body]
pub(crate) fn dict_get(d: &Dict, k: &Vec<u8>) -> (r: Option<usize>)
    ensures
        match r {
            Some(v) => dict_entries(*d).contains_key(k@) && dict_entries(*d)[k@] == v,
            None => !dict_entries(*d).contains_key(k@),
        },
{
    d.get(k).copied()
}

/// Relies on `AHashMap::insert` (delegating to `std`'s `HashMap::insert`):
/// after the call the map holds `v` under `k`, other entries unchanged.
#[verifier::external_body]
pub(crate) fn dict_insert(d: &mut Dict, k: Vec<u8>, v: usize)
    ensures
        dict_entries(*final(d)) == dict_entries(*old(d)).insert(k@, v),
{
    d.insert(k, v);
}

} // verus!
