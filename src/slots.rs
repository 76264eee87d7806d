//! Slot allocators from the `slab` crate, seen through the maps they hold.
//!
//! A slab hands out integer keys on insertion, reuses the keys that removals
//! free, and walks its live entries in ascending key order.
use vstd::prelude::*;

verus! {

#[verifier::external_type_specification]
#[verifier::external_body]
#[verifier::reject_recursive_types(T)]
pub struct ExSlab<T>(slab::Slab<T>);

/// A pair of indices: a directory entry `(kind, row)` or a row `(entity, slot)`.
pub type Link = (usize, usize);

/// A slab of links.
pub type LinkSlab = slab::Slab<Link>;

/// The entity table: one directory of links per live entity.
pub type Table = slab::Slab<LinkSlab>;

/// What a link slab holds, by key.
pub uninterp spec fn link_entries(s: LinkSlab) -> Map<usize, Link>;

/// The key that the next insertion into a link slab takes.
pub uninterp spec fn link_next(s: LinkSlab) -> usize;

/// How many slots a link slab has ever used: every key lies below it.
pub uninterp spec fn link_len(s: LinkSlab) -> usize;

/// What the entity table holds, by key.
pub uninterp spec fn table_entries(t: Table) -> Map<usize, LinkSlab>;

/// The key that the next insertion into the entity table takes.
pub uninterp spec fn table_next(t: Table) -> usize;

/// How many slots the entity table has ever used.
pub uninterp spec fn table_len(t: Table) -> usize;

/// `s` lists the members of `d` once each, in ascending order.
pub open spec fn ascending_keys(s: Seq<usize>, d: Set<usize>) -> bool {
    &&& forall|i: int, j: int| 0 <= i < j < s.len() ==> s[i] < s[j]
    &&& forall|i: int| 0 <= i < s.len() ==> d.contains(#[trigger] s[i])
    &&& forall|k: usize| d.contains(k) ==> exists|i: int| 0 <= i < s.len() && s[i] == k
}

/// Relies on `Slab::new`: a new slab holds nothing.
#[verifier::external_body]
pub(crate) fn link_new() -> (r: LinkSlab)
    ensures
        link_entries(r) =~= Map::empty(),
        link_next(r) == 0,
        link_len(r) == 0,
{
    slab::Slab::new()
}

/// Relies on `Slab::vacant_key`: the key that the next insertion takes.
#[verifier::external_body]
pub(crate) fn link_vacant_key(s: &LinkSlab) -> (r: usize)
    ensures
        r == link_next(*s),
{
    s.vacant_key()
}

/// Relies on `Slab::insert`: the value goes under the vacant key, which was
/// free; when no used slot was free, that key is the next unused slot.
#[verifier::external_body]
pub(crate) fn link_insert(s: &mut LinkSlab, v: Link) -> (r: usize)
    ensures
        r == link_next(*old(s)),
        !link_entries(*old(s)).contains_key(r),
        link_entries(*final(s)) == link_entries(*old(s)).insert(r, v),
        link_next(*old(s)) == link_len(*old(s)) ==> link_len(*final(s)) == r + 1
            && link_next(*final(s)) == r + 1,
{
    s.insert(v)
}

/// Relies on `Slab::get`: the value under `key`, if any.
#[verifier::external_body]
pub(crate) fn link_get(s: &LinkSlab, key: usize) -> (r: Option<Link>)
    ensures
        r == (if link_entries(*s).contains_key(key) {
            Some(link_entries(*s)[key])
        } else {
            None::<Link>
        }),
{
    s.get(key).copied()
}

/// Relies on `Slab::try_remove`: takes out the value under `key`, if any;
/// the freed key is the one the next insertion takes.
#[verifier::external_body]
pub(crate) fn link_remove(s: &mut LinkSlab, key: usize) -> (r: Option<Link>)
    ensures
        r == (if link_entries(*old(s)).contains_key(key) {
            Some(link_entries(*old(s))[key])
        } else {
            None::<Link>
        }),
        link_entries(*final(s)) == link_entries(*old(s)).remove(key),
        r is Some ==> link_next(*final(s)) == key && link_len(*final(s)) == link_len(*old(s)),
{
    s.try_remove(key)
}

/// Relies on `Slab::iter`: the live keys, in ascending order.
#[verifier::external_body]
pub(crate) fn link_keys(s: &LinkSlab) -> (r: Vec<usize>)
    ensures
        ascending_keys(r@, link_entries(*s).dom()),
{
    s.iter().map(|(k, _)| k).collect()
}

/// Relies on `Slab::new`: a new table holds nothing.
#[verifier::external_body]
pub(crate) fn table_new() -> (r: Table)
    ensures
        table_entries(r) =~= Map::empty(),
        table_next(r) == 0,
        table_len(r) == 0,
{
    slab::Slab::new()
}

/// Relies on `Slab::insert`: the directory goes under the vacant key, which
/// was free; when no used slot was free, that key is the next unused slot.
#[verifier::external_body]
pub(crate) fn table_insert(t: &mut Table, d: LinkSlab) -> (r: usize)
    ensures
        r == table_next(*old(t)),
        !table_entries(*old(t)).contains_key(r),
        table_entries(*final(t)) == table_entries(*old(t)).insert(r, d),
        table_next(*old(t)) == table_len(*old(t)) ==> table_len(*final(t)) == r + 1
            && table_next(*final(t)) == r + 1,
{
    t.insert(d)
}

/// Relies on `Slab::get`: the directory under `key`, if any.
#[verifier::external_body]
pub(crate) fn table_get(t: &Table, key: usize) -> (r: Option<&LinkSlab>)
    ensures
        match r {
            Some(d) => table_entries(*t).contains_key(key) && *d == table_entries(*t)[key],
            None => !table_entries(*t).contains_key(key),
        },
{
    t.get(key)
}

/// Relies on `Slab::get_mut`: the directory under `key`, to change in place.
#[verifier::external_body]
pub(crate) fn table_get_mut(t: &mut Table, key: usize) -> (r: Option<&mut LinkSlab>)
    ensures
        match r {
            Some(d) => {
                &&& table_entries(*old(t)).contains_key(key)
                &&& *d == table_entries(*old(t))[key]
                &&& table_entries(*final(t)) == table_entries(*old(t)).insert(key, *final(d))
                &&& table_next(*final(t)) == table_next(*old(t))
                &&& table_len(*final(t)) == table_len(*old(t))
            },
            None => !table_entries(*old(t)).contains_key(key) && *final(t) == *old(t),
        },
{
    t.get_mut(key)
}

/// Relies on `Slab::try_remove`: takes out the directory under `key`, if
/// any; the freed key is the one the next insertion takes.
#[verifier::external_body]
pub(crate) fn table_remove(t: &mut Table, key: usize) -> (r: Option<LinkSlab>)
    ensures
        match r {
            Some(d) => table_entries(*old(t)).contains_key(key) && d == table_entries(*old(t))[key],
            None => !table_entries(*old(t)).contains_key(key),
        },
        table_entries(*final(t)) == table_entries(*old(t)).remove(key),
        r is Some ==> table_next(*final(t)) == key && table_len(*final(t)) == table_len(*old(t)),
{
    t.try_remove(key)
}

/// Relies on `Slab::iter`: the live keys of the table, in ascending order.
#[verifier::external_body]
pub(crate) fn table_keys(t: &Table) -> (r: Vec<usize>)
    ensures
        ascending_keys(r@, table_entries(*t).dom()),
{
    t.iter().map(|(k, _)| k).collect()
}

} // verus!
