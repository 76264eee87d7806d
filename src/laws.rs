//! Laws of the store, stated over the model that the operations' contracts
//! describe, and proved from those contracts alone.
use vstd::prelude::*;
use crate::store::{
    owned_by_others, scoped_values, slots_of_kind, CompKey, Component, EntityKey, ECS,
};

verus! {

/// Right after `insert_entity` returns `e`, the entity is live, so
/// `get_entity(e)` succeeds, and its directory is empty.
pub proof fn law_new_entity_is_live_and_empty<C: Component>(
    before: ECS<C>,
    after: ECS<C>,
    e: EntityKey,
)
    requires
        after.dirs() == before.dirs().insert(e, Map::empty()),
    ensures
        after.dirs().contains_key(e),
        after.dirs()[e].dom() == Set::<usize>::empty(),
{
    assert(after.dirs()[e] == Map::<usize, CompKey>::empty());
}

/// A value inserted as a component comes back unchanged from `get_comp`
/// under the key that `insert_comp` returned.
pub proof fn law_insert_then_get<C: Component>(before: ECS<C>, after: ECS<C>, k: CompKey, v: C)
    requires
        after.comps() == before.comps().insert(k, v),
    ensures
        after.comps().contains_key(k),
        after.comps()[k] == v,
{
}

/// Once `remove_entity(e)` has succeeded, `e` is no longer live: a second
/// `remove_entity(e)` fails and leaves the store as it is.
pub proof fn law_remove_entity_twice<C: Component>(before: ECS<C>, after: ECS<C>, e: EntityKey)
    requires
        after.dirs() == before.dirs().remove(e),
    ensures
        !after.dirs().contains_key(e),
{
}

/// Once `remove_comp(k)` has succeeded, `k` names no live component: a
/// second `remove_comp(k)` fails and leaves the store as it is.
pub proof fn law_remove_comp_twice<C: Component>(before: ECS<C>, after: ECS<C>, k: CompKey)
    requires
        after.comps() == before.comps().remove(k),
    ensures
        !after.comps().contains_key(k),
{
}

/// Removing an entity removes the components it owns: after
/// `insert_comp(e, v)` returned `k` and `remove_entity(e)` succeeded, both
/// `get_entity(e)` and `get_comp(k)` fail.
pub proof fn law_cascade<C: Component>(
    before: ECS<C>,
    mid: ECS<C>,
    after: ECS<C>,
    e: EntityKey,
    k: CompKey,
    v: C,
)
    requires
        mid.comps() == before.comps().insert(k, v),
        mid.owners() == before.owners().insert(k, e),
        after.dirs() == mid.dirs().remove(e),
        after.comps() == mid.comps().restrict(owned_by_others(mid.owners(), e)),
    ensures
        !after.dirs().contains_key(e),
        !after.comps().contains_key(k),
{
}

/// A key resolves only under its own kind: inserting a component of kind
/// `k.0` changes nothing that a key of another kind names.
pub proof fn law_kinds_are_separate<C: Component>(
    before: ECS<C>,
    after: ECS<C>,
    k: CompKey,
    v: C,
    other: CompKey,
)
    requires
        after.comps() == before.comps().insert(k, v),
        other.0 != k.0,
    ensures
        after.comps().contains_key(other) == before.comps().contains_key(other),
        after.comps().contains_key(other) ==> after.comps()[other] == before.comps()[other],
{
}

/// Type safety: a component found under key `k` is of kind `k.0`, so a key
/// of one kind never yields a value of another.
pub proof fn law_found_value_has_key_kind<C: Component>(s: ECS<C>, k: CompKey)
    requires
        s.wf(),
        s.comps().contains_key(k),
    ensures
        s.comps()[k].kind_of() == k.0,
{
    s.lemma_kinds();
}

/// Entity keys are reused: after `remove_entity(e)` succeeded, the next
/// `insert_entity` hands out `e` again, so a key kept past the removal names
/// the new, empty entity.
pub proof fn law_entity_key_reused<C: Component>(
    removed: ECS<C>,
    after: ECS<C>,
    e: EntityKey,
    r: EntityKey,
)
    requires
        removed.entity_next() == e,
        r == removed.entity_next(),
        after.dirs() == removed.dirs().insert(r, Map::empty()),
    ensures
        r == e,
        after.dirs().contains_key(e),
        after.dirs()[e] == Map::<usize, CompKey>::empty(),
{
}

/// Component rows are reused: after `remove_comp(k)` succeeded, the next
/// `insert_comp` of a value of kind `k.0` returns `k` again, so the kept key
/// names the new record and its owner.
pub proof fn law_comp_key_reused<C: Component>(
    removed: ECS<C>,
    after: ECS<C>,
    k: CompKey,
    e: EntityKey,
    v: C,
    key: CompKey,
)
    requires
        removed.row_next(k.0) == k.1,
        key.0 == v.kind_of(),
        v.kind_of() == k.0,
        key.1 == removed.row_next(key.0),
        after.comps() == removed.comps().insert(key, v),
        after.owners() == removed.owners().insert(key, e),
    ensures
        key == k,
        after.comps()[k] == v,
        after.owners()[k] == e,
{
}

/// What a scoped mutable pass over the components of `kind` owned by `e`
/// writes is what `get_comp` reads afterwards.
pub proof fn law_scoped_mutation_is_visible<C: Component, F: Fn(C) -> C>(
    before: ECS<C>,
    after: ECS<C>,
    e: EntityKey,
    kind: usize,
    f: F,
    k: CompKey,
)
    requires
        after.comps().dom() == before.comps().dom(),
        forall|k2: CompKey| #[trigger]
            after.comps().contains_key(k2) ==> if k2.0 == kind && before.owners()[k2] == e {
                f.ensures((before.comps()[k2],), after.comps()[k2])
            } else {
                after.comps()[k2] == before.comps()[k2]
            },
        before.comps().contains_key(k),
        k.0 == kind,
        before.owners()[k] == e,
    ensures
        after.comps().contains_key(k),
        f.ensures((before.comps()[k],), after.comps()[k]),
{
    assert(after.comps().contains_key(k));
}

/// `get_entity_by_comp` finds the owner of a component that `insert_comp`
/// created, and fails once `remove_comp` has taken it out.
pub proof fn law_reverse_lookup<C: Component>(
    before: ECS<C>,
    mid: ECS<C>,
    after: ECS<C>,
    e: EntityKey,
    k: CompKey,
    v: C,
)
    requires
        mid.comps() == before.comps().insert(k, v),
        mid.owners() == before.owners().insert(k, e),
        after.comps() == mid.comps().remove(k),
    ensures
        mid.comps().contains_key(k),
        mid.owners()[k] == e,
        !after.comps().contains_key(k),
{
}

/// `a` and `b` agree on what `e` owns of `kind`: the same directory slots,
/// naming the same keys, holding the same values.
pub open spec fn same_scope<C: Component>(a: ECS<C>, b: ECS<C>, e: EntityKey, kind: usize) -> bool {
    &&& a.dirs().contains_key(e) == b.dirs().contains_key(e)
    &&& slots_of_kind(a.dirs()[e], kind) == slots_of_kind(b.dirs()[e], kind)
    &&& forall|s: usize| #[trigger]
        slots_of_kind(a.dirs()[e], kind).contains(s) ==> a.dirs()[e][s] == b.dirs()[e][s]
            && a.comps()[a.dirs()[e][s]] == b.comps()[b.dirs()[e][s]]
}

/// Scoped iteration depends on nothing but what the entity owns of the kind:
/// two stores that agree there admit the same result sequences.
pub proof fn law_scope_decides_scoped_iteration<C: Component>(
    a: ECS<C>,
    b: ECS<C>,
    e: EntityKey,
    kind: usize,
    vs: Seq<C>,
)
    requires
        same_scope(a, b, e, kind),
        scoped_values(a, e, kind, vs),
    ensures
        scoped_values(b, e, kind, vs),
{
    let slots = choose|slots: Seq<usize>| #[trigger]
        crate::slots::ascending_keys(slots, slots_of_kind(a.dirs()[e], kind)) && vs.len()
            == slots.len() && forall|j: int|
            0 <= j < slots.len() ==> vs[j] == a.comps()[a.dirs()[e][slots[j]]];
    assert forall|j: int| 0 <= j < slots.len() implies vs[j] == b.comps()[b.dirs()[e][slots[j]]] by {
        assert(slots_of_kind(a.dirs()[e], kind).contains(slots[j]));
    }
    assert(crate::slots::ascending_keys(slots, slots_of_kind(b.dirs()[e], kind)));
}

/// Inserting another entity leaves a live entity's scope as it was.
pub proof fn law_scope_kept_by_insert_entity<C: Component>(
    before: ECS<C>,
    after: ECS<C>,
    r: EntityKey,
    e: EntityKey,
    kind: usize,
)
    requires
        before.dirs().contains_key(e),
        !before.dirs().contains_key(r),
        after.dirs() == before.dirs().insert(r, Map::empty()),
        after.comps() == before.comps(),
    ensures
        same_scope(before, after, e, kind),
{
    assert(r != e);
}

/// Removing another entity leaves a live entity's scope as it was.
pub proof fn law_scope_kept_by_remove_entity<C: Component>(
    before: ECS<C>,
    after: ECS<C>,
    e2: EntityKey,
    e: EntityKey,
    kind: usize,
)
    requires
        before.wf(),
        before.dirs().contains_key(e),
        e2 != e,
        after.dirs() == before.dirs().remove(e2),
        after.comps() == before.comps().restrict(owned_by_others(before.owners(), e2)),
    ensures
        same_scope(before, after, e, kind),
{
    before.lemma_links();
    assert forall|s: usize| #[trigger]
        slots_of_kind(before.dirs()[e], kind).contains(s) implies before.dirs()[e][s]
        == after.dirs()[e][s] && before.comps()[before.dirs()[e][s]] == after.comps()[after.dirs()[e][s]] by {
        let k = before.dirs()[e][s];
        assert(before.dirs()[e].contains_key(s));
        assert(before.owners()[k] == e);
        assert(owned_by_others(before.owners(), e2).contains(k));
    }
}

/// Inserting a component for another entity, or of another kind, leaves the
/// scope of `e` and `kind` as it was.
pub proof fn law_scope_kept_by_insert_comp<C: Component>(
    before: ECS<C>,
    after: ECS<C>,
    e2: EntityKey,
    key: CompKey,
    v: C,
    slot: usize,
    e: EntityKey,
    kind: usize,
)
    requires
        before.wf(),
        before.dirs().contains_key(e),
        e2 != e || key.0 != kind,
        before.dirs().contains_key(e2),
        !before.comps().contains_key(key),
        after.comps() == before.comps().insert(key, v),
        !before.dirs()[e2].contains_key(slot),
        after.dirs() == before.dirs().insert(e2, before.dirs()[e2].insert(slot, key)),
    ensures
        same_scope(before, after, e, kind),
{
    before.lemma_links();
    assert(slots_of_kind(before.dirs()[e], kind) =~= slots_of_kind(after.dirs()[e], kind));
    assert forall|s: usize| #[trigger]
        slots_of_kind(before.dirs()[e], kind).contains(s) implies before.dirs()[e][s]
        == after.dirs()[e][s] && before.comps()[before.dirs()[e][s]] == after.comps()[after.dirs()[e][s]] by {
        assert(before.dirs()[e].contains_key(s));
        assert(before.comps().contains_key(before.dirs()[e][s]));
    }
}

/// Removing a component of another entity, or of another kind, leaves the
/// scope of `e` and `kind` as it was.
pub proof fn law_scope_kept_by_remove_comp<C: Component>(
    before: ECS<C>,
    after: ECS<C>,
    k: CompKey,
    e: EntityKey,
    kind: usize,
)
    requires
        before.wf(),
        before.dirs().contains_key(e),
        before.comps().contains_key(k),
        before.owners()[k] != e || k.0 != kind,
        after.comps() == before.comps().remove(k),
        after.dirs() == before.dirs().insert(
            before.owners()[k],
            before.dirs()[before.owners()[k]].remove(before.slots()[k]),
        ),
    ensures
        same_scope(before, after, e, kind),
{
    before.lemma_links();
    let o = before.owners()[k];
    assert(before.dirs().contains_key(o));
    assert(slots_of_kind(before.dirs()[e], kind) =~= slots_of_kind(after.dirs()[e], kind)) by {
        if o == e {
            assert(before.dirs()[e][before.slots()[k]] == k);
        }
    }
    assert forall|s: usize| #[trigger]
        slots_of_kind(before.dirs()[e], kind).contains(s) implies before.dirs()[e][s]
        == after.dirs()[e][s] && before.comps()[before.dirs()[e][s]] == after.comps()[after.dirs()[e][s]] by {
        let k2 = before.dirs()[e][s];
        assert(before.dirs()[e].contains_key(s));
        assert(before.owners()[k2] == e);
        if o == e {
            assert(before.dirs()[e][before.slots()[k]] == k);
        }
        assert(k2 != k);
    }
}

} // verus!
