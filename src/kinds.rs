//! The registry of component kinds: an `ahash` map from a kind to the index
//! of its column.
use vstd::prelude::*;

verus! {

#[verifier::external_type_specification]
#[verifier::external_body]
#[verifier::reject_recursive_types(K)]
#[verifier::reject_recursive_types(V)]
#[verifier::reject_recursive_types(S)]
pub struct ExAHashMap<K, V, S>(ahash::AHashMap<K, V, S>);

#[verifier::external_type_specification]
#[verifier::external_body]
pub struct ExRandomState(ahash::RandomState);

/// A map from kinds to column indices.
pub type KindMap = ahash::AHashMap<usize, usize>;

/// What a kind map holds.
pub uninterp spec fn kind_entries(m: KindMap) -> Map<usize, usize>;

/// Relies on `AHashMap::new`: a new map holds nothing.
#[verifier::external_body]
pub(crate) fn kinds_new() -> (r: KindMap)
    ensures
        kind_entries(r) =~= Map::empty(),
{
    ahash::AHashMap::new()
}

/// Relies on `AHashMap::get`: the value under `k`, if any.
#[verifier::external_body]
pub(crate) fn kinds_get(m: &KindMap, k: usize) -> (r: Option<usize>)
    ensures
        r == (if kind_entries(*m).contains_key(k) {
            Some(kind_entries(*m)[k])
        } else {
            None::<usize>
        }),
{
    m.get(&k).copied()
}

/// Relies on `AHashMap::insert`: `k` now maps to `v`.
#[verifier::external_body]
pub(crate) fn kinds_insert(m: &mut KindMap, k: usize, v: usize)
    ensures
        kind_entries(*final(m)) == kind_entries(*old(m)).insert(k, v),
{
    m.insert(k, v);
}

/// Relies on `AHashMap::remove`: `k` maps to nothing.
#[verifier::external_body]
pub(crate) fn kinds_remove(m: &mut KindMap, k: usize)
    ensures
        kind_entries(*final(m)) == kind_entries(*old(m)).remove(k),
{
    m.remove(&k);
}

} // verus!
