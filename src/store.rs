//! The store: an entity table, one column of components per kind, and the
//! links that tie each component to the directory entry of its owner.
use vstd::prelude::*;
use crate::kinds::{kind_entries, kinds_get, kinds_insert, kinds_new, kinds_remove, KindMap};
use crate::slots::{
    ascending_keys, link_entries, link_get, link_insert, link_keys, link_new, link_remove,
    link_vacant_key, link_len, link_next, table_entries, table_get, table_get_mut, table_insert,
    table_keys, table_len, table_new, table_next, table_remove, Link, LinkSlab, Table,
};

verus! {

/// A value that can be stored as a component. Its kind routes it to the
/// column that holds all components of that kind.
pub trait Component {
    /// The kind of this value.
    spec fn kind_of(&self) -> usize;

    /// Computes the kind of this value.
    fn kind(&self) -> (k: usize)
        ensures
            k == self.kind_of(),
    ;
}

/// Names an entity: a key of the entity table.
pub type EntityKey = usize;

/// Names a component: its kind and its row in the column of that kind.
pub type CompKey = (usize, usize);

/// All components of one kind. `rows` maps each row to its owner and to the
/// slot of the owner's directory that names the row; `vals` holds the values.
struct Column<C> {
    kind: usize,
    rows: LinkSlab,
    vals: Vec<Option<C>>,
}

/// A row holds a value exactly where the column's slab holds a link, and
/// every value held is of the column's kind.
spec fn column_wf<C: Component>(c: Column<C>) -> bool {
    &&& forall|r: usize|
        #[trigger] link_entries(c.rows).contains_key(r) <==> (r < c.vals@.len()
            && c.vals@[r as int] is Some)
    &&& forall|r: int|
        0 <= r < c.vals@.len() && (#[trigger] c.vals@[r]) is Some ==> c.vals@[r]->Some_0.kind_of()
            == c.kind
}

/// An entity-component store over components of type `C`.
pub struct ECS<C> {
    entities: Table,
    kinds: KindMap,
    cols: Vec<Column<C>>,
}

impl<C: Component> ECS<C> {
    /// The column that holds components of `kind`.
    spec fn col(&self, kind: usize) -> Column<C> {
        self.cols@[kind_entries(self.kinds)[kind] as int]
    }

    /// The rows of the column of `kind`.
    spec fn rows(&self, kind: usize) -> Map<usize, Link> {
        link_entries(self.col(kind).rows)
    }

    /// `key` names a live component.
    spec fn has(&self, key: CompKey) -> bool {
        kind_entries(self.kinds).contains_key(key.0) && self.rows(key.0).contains_key(key.1)
    }

    /// The live entities, each with its directory: slot to component key.
    pub closed spec fn dirs(&self) -> Map<EntityKey, Map<usize, CompKey>> {
        table_entries(self.entities).map_values(|d: LinkSlab| link_entries(d))
    }

    /// The registered kinds.
    pub closed spec fn kinds(&self) -> Set<usize> {
        kind_entries(self.kinds).dom()
    }

    /// The live components, by key.
    pub closed spec fn comps(&self) -> Map<CompKey, C> {
        Map::new(
            |key: CompKey| self.has(key),
            |key: CompKey| self.col(key.0).vals@[key.1 as int]->Some_0,
        )
    }

    /// The owner of each live component.
    pub closed spec fn owners(&self) -> Map<CompKey, EntityKey> {
        Map::new(|key: CompKey| self.has(key), |key: CompKey| self.rows(key.0)[key.1].0)
    }

    /// The slot of its owner's directory that names each live component.
    pub closed spec fn slots(&self) -> Map<CompKey, usize> {
        Map::new(|key: CompKey| self.has(key), |key: CompKey| self.rows(key.0)[key.1].1)
    }

    /// The key that the next `insert_entity` hands out.
    pub closed spec fn entity_next(&self) -> EntityKey {
        table_next(self.entities)
    }

    /// No freed entity key waits for reuse: the next key is one never used.
    pub closed spec fn entities_packed(&self) -> bool {
        table_next(self.entities) == table_len(self.entities)
    }

    /// The row that the next component of `kind` takes; a kind without a
    /// column starts at row 0.
    pub closed spec fn row_next(&self, kind: usize) -> usize {
        if kind_entries(self.kinds).contains_key(kind) {
            link_next(self.col(kind).rows)
        } else {
            0
        }
    }

    /// No freed row of `kind` waits for reuse: the next row is one never used.
    pub closed spec fn rows_packed(&self, kind: usize) -> bool {
        kind_entries(self.kinds).contains_key(kind) ==> link_next(self.col(kind).rows) == link_len(
            self.col(kind).rows,
        )
    }

    /// The directory slot that the next component of `e` takes; an entity
    /// that is not live has none used.
    pub closed spec fn slot_next(&self, e: EntityKey) -> usize {
        if table_entries(self.entities).contains_key(e) {
            link_next(table_entries(self.entities)[e])
        } else {
            0
        }
    }

    /// No freed slot of `e`'s directory waits for reuse.
    pub closed spec fn slots_packed(&self, e: EntityKey) -> bool {
        table_entries(self.entities).contains_key(e) ==> link_next(table_entries(self.entities)[e])
            == link_len(table_entries(self.entities)[e])
    }

    /// The store is consistent: kinds and columns match one to one, every
    /// component links to a directory entry of its owner that names it, and
    /// every directory entry names a component that links back to it.
    pub closed spec fn wf(&self) -> bool {
        &&& forall|k: usize| #[trigger]
            kind_entries(self.kinds).contains_key(k) ==> kind_entries(self.kinds)[k]
                < self.cols@.len() && self.cols@[kind_entries(self.kinds)[k] as int].kind == k
        &&& forall|i: int|
            0 <= i < self.cols@.len() ==> kind_entries(self.kinds).contains_key(
                #[trigger] self.cols@[i].kind,
            ) && kind_entries(self.kinds)[self.cols@[i].kind] == i
        &&& forall|i: int| 0 <= i < self.cols@.len() ==> column_wf(#[trigger] self.cols@[i])
        &&& forall|key: CompKey| #[trigger]
            self.has(key) ==> {
                let (e, d) = self.rows(key.0)[key.1];
                &&& self.dirs().contains_key(e)
                &&& self.dirs()[e].contains_key(d)
                &&& self.dirs()[e][d] == key
            }
        &&& forall|e: EntityKey, d: usize|
            self.dirs().contains_key(e) && #[trigger] self.dirs()[e].contains_key(d) ==> {
                let key = self.dirs()[e][d];
                &&& self.has(key)
                &&& self.rows(key.0)[key.1] == (e, d)
            }
    }

    /// Creates an empty store.
    pub fn new() -> (r: Self)
        ensures
            r.wf(),
            r.dirs() =~= Map::empty(),
            r.kinds() =~= Set::empty(),
            r.comps() =~= Map::empty(),
            r.owners() =~= Map::empty(),
            r.slots() =~= Map::empty(),
            fresh_alloc(r),
    {
        let r = ECS { entities: table_new(), kinds: kinds_new(), cols: Vec::new() };
        assert(r.dirs() =~= Map::empty());
        r
    }

    /// Inserts an entity with an empty directory and returns its key: the
    /// last freed key, else the first never used.
    pub fn insert_entity(&mut self) -> (r: EntityKey)
        requires
            old(self).wf(),
        ensures
            final(self).wf(),
            !old(self).dirs().contains_key(r),
            final(self).dirs() == old(self).dirs().insert(r, Map::empty()),
            final(self).kinds() == old(self).kinds(),
            final(self).comps() == old(self).comps(),
            final(self).owners() == old(self).owners(),
            final(self).slots() == old(self).slots(),
            r == old(self).entity_next(),
            old(self).entities_packed() ==> final(self).entities_packed() && final(self).entity_next()
                == r + 1,
            forall|kind: usize| #![trigger final(self).row_next(kind)] #![trigger final(self).rows_packed(kind)]  same_row_alloc(*old(self), *final(self), kind),
            forall|e: EntityKey| #![trigger final(self).slot_next(e)] #![trigger final(self).slots_packed(e)]  same_slot_alloc(*old(self), *final(self), e),
    {
        let d = link_new();
        let r = table_insert(&mut self.entities, d);
        assert(final(self).dirs() =~= old(self).dirs().insert(r, Map::empty()));
        assert(final(self).comps() =~= old(self).comps());
        assert(final(self).owners() =~= old(self).owners());
        assert(final(self).slots() =~= old(self).slots());
        proof {
            let o = *old(self);
            assert forall|e: EntityKey, d: usize|
                self.dirs().contains_key(e) && #[trigger] self.dirs()[e].contains_key(d) implies {
                let key = self.dirs()[e][d];
                &&& self.has(key)
                &&& self.rows(key.0)[key.1] == (e, d)
            } by {
                if e == r {
                    assert(self.dirs()[e] =~= Map::empty());
                } else {
                    assert(o.dirs()[e] == self.dirs()[e]);
                }
            }
            assert forall|key: CompKey| #[trigger] self.has(key) implies {
                let (e, d) = self.rows(key.0)[key.1];
                &&& self.dirs().contains_key(e)
                &&& self.dirs()[e].contains_key(d)
                &&& self.dirs()[e][d] == key
            } by {
                assert(o.has(key));
                let (e, d) = self.rows(key.0)[key.1];
                assert(o.dirs()[e] == self.dirs()[e]);
            }
        }
        r
    }

    /// Whether `entity_key` names a live entity.
    pub fn get_entity(&self, entity_key: EntityKey) -> (r: Option<()>)
        ensures
            r is Some <==> self.dirs().contains_key(entity_key),
    {
        match table_get(&self.entities, entity_key) {
            Some(_) => Some(()),
            None => None,
        }
    }

    /// The keys of all live entities, in ascending order.
    pub fn iter_entity(&self) -> (r: Vec<EntityKey>)
        ensures
            ascending_keys(r@, self.dirs().dom()),
    {
        table_keys(&self.entities)
    }

    /// Inserts `comp` as a component of `entity_key` and returns its key.
    /// The column of its kind is created on first use. The row and the
    /// directory slot are the ones their slot allocators hand out next: the
    /// last freed one, else the first never used. Fails when the entity is
    /// not live.
    pub fn insert_comp(&mut self, entity_key: EntityKey, comp: C) -> (r: Option<CompKey>)
        requires
            old(self).wf(),
        ensures
            final(self).wf(),
            r is None <==> !old(self).dirs().contains_key(entity_key),
            r is None ==> *final(self) == *old(self),
            r matches Some(key) ==> {
                let slot = final(self).slots()[key];
                &&& key.0 == comp.kind_of()
                &&& !old(self).comps().contains_key(key)
                &&& final(self).comps() == old(self).comps().insert(key, comp)
                &&& final(self).owners() == old(self).owners().insert(key, entity_key)
                &&& final(self).slots() == old(self).slots().insert(key, slot)
                &&& final(self).kinds() == old(self).kinds().insert(key.0)
                &&& !old(self).dirs()[entity_key].contains_key(slot)
                &&& final(self).dirs() == old(self).dirs().insert(
                    entity_key,
                    old(self).dirs()[entity_key].insert(slot, key),
                )
                &&& key.1 == old(self).row_next(key.0)
                &&& old(self).rows_packed(key.0) ==> final(self).rows_packed(key.0)
                    && final(self).row_next(key.0) == key.1 + 1
                &&& forall|k: usize| #![trigger final(self).row_next(k)] #![trigger final(self).rows_packed(k)]  k != key.0 ==> same_row_alloc(*old(self), *final(self), k)
                &&& slot == old(self).slot_next(entity_key)
                &&& old(self).slots_packed(entity_key) ==> final(self).slots_packed(entity_key)
                    && final(self).slot_next(entity_key) == slot + 1
                &&& forall|e: EntityKey| #![trigger final(self).slot_next(e)] #![trigger final(self).slots_packed(e)]  e != entity_key ==> same_slot_alloc(*old(self), *final(self), e)
                &&& same_entity_alloc(*old(self), *final(self))
            },
    {
        let kind = comp.kind();
        if table_get(&self.entities, entity_key).is_none() {
            return None;
        }
        let i = self.column_of(kind);
        let ghost mid = *self;
        let row = link_vacant_key(&self.cols[i].rows);
        let slot = match table_get_mut(&mut self.entities, entity_key) {
            Some(dir) => link_insert(dir, (kind, row)),
            None => return None,
        };
        let r2 = link_insert(&mut self.cols[i].rows, (entity_key, slot));
        put_value(&mut self.cols[i].vals, row, comp);
        let key = (kind, row);
        proof {
            let o = *old(self);
            assert(r2 == row);
            assert(!mid.has(key)) by {
                assert(!link_entries(mid.cols@[i as int].rows).contains_key(row));
            }
            assert(self.has(key));
            assert forall|k: CompKey| k != key implies self.has(k) == mid.has(k)
                && (mid.has(k) ==> self.rows(k.0)[k.1] == mid.rows(k.0)[k.1]
                && self.col(k.0).vals@[k.1 as int] == mid.col(k.0).vals@[k.1 as int]) by {
                if k.0 == kind && mid.has(k) {
                    assert(column_wf(mid.cols@[i as int]));
                }
            }
            assert(self.comps() =~= o.comps().insert(key, comp));
            assert(self.owners() =~= o.owners().insert(key, entity_key));
            assert(self.slots() =~= o.slots().insert(key, slot));
            assert(self.dirs() =~= o.dirs().insert(entity_key, o.dirs()[entity_key].insert(slot, key)));
            assert forall|i2: int| 0 <= i2 < self.cols@.len() implies column_wf(
                #[trigger] self.cols@[i2],
            ) by {
                if i2 == i {
                    assert(column_wf(mid.cols@[i2]));
                    assert forall|r: usize| #[trigger] link_entries(self.cols@[i2].rows).contains_key(r) <==> (r < self.cols@[i2].vals@.len()
                        && self.cols@[i2].vals@[r as int] is Some) by {
                        if r != row {
                            assert(link_entries(self.cols@[i2].rows).contains_key(r) == link_entries(mid.cols@[i2].rows).contains_key(r));
                        }
                    }
                } else {
                    assert(self.cols@[i2] == mid.cols@[i2]);
                }
            }
            assert forall|k: CompKey| #[trigger] self.has(k) implies {
                let (e, d) = self.rows(k.0)[k.1];
                &&& self.dirs().contains_key(e)
                &&& self.dirs()[e].contains_key(d)
                &&& self.dirs()[e][d] == k
            } by {
                if k != key {
                    assert(mid.has(k));
                    let (e, d) = mid.rows(k.0)[k.1];
                    if e == entity_key {
                        assert(mid.dirs()[e].contains_key(d));
                        assert(d != slot);
                    }
                }
            }
            assert forall|e: EntityKey, d: usize|
                self.dirs().contains_key(e) && #[trigger] self.dirs()[e].contains_key(d) implies {
                let k = self.dirs()[e][d];
                &&& self.has(k)
                &&& self.rows(k.0)[k.1] == (e, d)
            } by {
                if e != entity_key || d != slot {
                    assert(mid.dirs()[e].contains_key(d));
                    let k = mid.dirs()[e][d];
                    assert(mid.has(k));
                    assert(k != key);
                }
            }
            assert(mid.entities == o.entities);
            assert(same_row_alloc(o, mid, kind));
            assert(key.1 == o.row_next(kind));
            assert(self.col(kind).rows == self.cols@[i as int].rows);
            assert forall|k: usize| k != kind implies #[trigger] same_row_alloc(o, *self, k) by {
                assert(same_row_alloc(o, mid, k));
                if kind_entries(self.kinds).contains_key(k) {
                    assert(kind_entries(self.kinds)[k] != i);
                    assert(self.col(k) == mid.col(k));
                }
            }
            assert forall|e: EntityKey| e != entity_key implies #[trigger] same_slot_alloc(o, *self, e) by {
                if table_entries(self.entities).contains_key(e) {
                    assert(table_entries(self.entities)[e] == table_entries(o.entities)[e]);
                }
            }
        }
        Some(key)
    }

    /// Removes the component under `comp_key` and returns its value. Its
    /// owner's directory loses the entry that named it. Fails when the key
    /// names no live component.
    pub fn remove_comp(&mut self, comp_key: CompKey) -> (r: Option<C>)
        requires
            old(self).wf(),
        ensures
            final(self).wf(),
            r is None <==> !old(self).comps().contains_key(comp_key),
            r is None ==> *final(self) == *old(self),
            r matches Some(v) ==> {
                let e = old(self).owners()[comp_key];
                let slot = old(self).slots()[comp_key];
                &&& v == old(self).comps()[comp_key]
                &&& final(self).comps() == old(self).comps().remove(comp_key)
                &&& final(self).owners() == old(self).owners().remove(comp_key)
                &&& final(self).slots() == old(self).slots().remove(comp_key)
                &&& final(self).kinds() == old(self).kinds()
                &&& final(self).dirs() == old(self).dirs().insert(e, old(self).dirs()[e].remove(slot))
                &&& final(self).row_next(comp_key.0) == comp_key.1
                &&& forall|k: usize| #![trigger final(self).row_next(k)] #![trigger final(self).rows_packed(k)]  k != comp_key.0 ==> same_row_alloc(*old(self), *final(self), k)
                &&& final(self).slot_next(e) == slot
                &&& forall|e2: EntityKey| #![trigger final(self).slot_next(e2)] #![trigger final(self).slots_packed(e2)]  e2 != e ==> same_slot_alloc(*old(self), *final(self), e2)
                &&& same_entity_alloc(*old(self), *final(self))
            },
    {
        self.take_comp(comp_key)
    }

    /// Removes the component under `comp_key`, leaving the kind map as it is.
    fn take_comp(&mut self, comp_key: CompKey) -> (r: Option<C>)
        requires
            old(self).wf(),
        ensures
            final(self).wf(),
            r is None <==> !old(self).comps().contains_key(comp_key),
            r is None ==> *final(self) == *old(self),
            final(self).kinds == old(self).kinds,
            r matches Some(v) ==> {
                let e = old(self).owners()[comp_key];
                let slot = old(self).slots()[comp_key];
                &&& v == old(self).comps()[comp_key]
                &&& final(self).comps() == old(self).comps().remove(comp_key)
                &&& final(self).owners() == old(self).owners().remove(comp_key)
                &&& final(self).slots() == old(self).slots().remove(comp_key)
                &&& final(self).kinds() == old(self).kinds()
                &&& final(self).dirs() == old(self).dirs().insert(e, old(self).dirs()[e].remove(slot))
                &&& final(self).row_next(comp_key.0) == comp_key.1
                &&& forall|k: usize| #![trigger final(self).row_next(k)] #![trigger final(self).rows_packed(k)]  k != comp_key.0 ==> same_row_alloc(*old(self), *final(self), k)
                &&& final(self).slot_next(e) == slot
                &&& forall|e2: EntityKey| #![trigger final(self).slot_next(e2)] #![trigger final(self).slots_packed(e2)]  e2 != e ==> same_slot_alloc(*old(self), *final(self), e2)
                &&& same_entity_alloc(*old(self), *final(self))
            },
    {
        let (kind, row) = comp_key;
        let i = match kinds_get(&self.kinds, kind) {
            Some(i) => i,
            None => return None,
        };
        proof {
            assert(column_wf(self.cols@[i as int]));
        }
        let link = match link_get(&self.cols[i].rows, row) {
            Some(l) => l,
            None => return None,
        };
        link_remove(&mut self.cols[i].rows, row);
        let (e, slot) = link;
        let v = self.cols[i].vals[row].take();
        match table_get_mut(&mut self.entities, e) {
            Some(dir) => {
                link_remove(dir, slot);
            },
            None => {},
        }
        proof {
            let o = *old(self);
            assert(o.has(comp_key));
            assert(!self.has(comp_key));
            assert forall|k: CompKey| k != comp_key implies self.has(k) == o.has(k)
                && (o.has(k) ==> self.rows(k.0)[k.1] == o.rows(k.0)[k.1]
                && self.col(k.0).vals@[k.1 as int] == o.col(k.0).vals@[k.1 as int]) by {}
            assert(self.comps() =~= o.comps().remove(comp_key));
            assert(self.owners() =~= o.owners().remove(comp_key));
            assert(self.slots() =~= o.slots().remove(comp_key));
            assert(self.dirs() =~= o.dirs().insert(e, o.dirs()[e].remove(slot)));
            assert forall|i2: int| 0 <= i2 < self.cols@.len() implies column_wf(
                #[trigger] self.cols@[i2],
            ) by {
                assert(column_wf(o.cols@[i2]));
                if i2 == i {
                    assert forall|r: usize| #[trigger] link_entries(self.cols@[i2].rows).contains_key(r) <==> (r < self.cols@[i2].vals@.len()
                        && self.cols@[i2].vals@[r as int] is Some) by {
                        if r != row {
                            assert(link_entries(self.cols@[i2].rows).contains_key(r) == link_entries(o.cols@[i2].rows).contains_key(r));
                        }
                    }
                } else {
                    assert(self.cols@[i2] == o.cols@[i2]);
                }
            }
            assert forall|k: CompKey| #[trigger] self.has(k) implies {
                let (e2, d) = self.rows(k.0)[k.1];
                &&& self.dirs().contains_key(e2)
                &&& self.dirs()[e2].contains_key(d)
                &&& self.dirs()[e2][d] == k
            } by {
                assert(o.has(k));
                let (e2, d) = o.rows(k.0)[k.1];
                assert(o.dirs()[e2].contains_key(d));
            }
            assert forall|e2: EntityKey, d: usize|
                self.dirs().contains_key(e2) && #[trigger] self.dirs()[e2].contains_key(d) implies {
                let k = self.dirs()[e2][d];
                &&& self.has(k)
                &&& self.rows(k.0)[k.1] == (e2, d)
            } by {
                assert(o.dirs()[e2].contains_key(d));
                let k = o.dirs()[e2][d];
                assert(o.has(k));
            }
            assert(self.col(kind).rows == self.cols@[i as int].rows);
            assert forall|k: usize| k != kind implies #[trigger] same_row_alloc(o, *self, k) by {
                if kind_entries(self.kinds).contains_key(k) {
                    assert(kind_entries(self.kinds)[k] != i);
                    assert(self.col(k) == o.col(k));
                }
            }
            assert forall|e3: EntityKey| e3 != e implies #[trigger] same_slot_alloc(o, *self, e3) by {
                if table_entries(self.entities).contains_key(e3) {
                    assert(table_entries(self.entities)[e3] == table_entries(o.entities)[e3]);
                }
            }
        }
        v
    }

    /// Removes the entity under `entity_key` together with every component
    /// it owns. Fails when the entity is not live.
    pub fn remove_entity(&mut self, entity_key: EntityKey) -> (r: Option<()>)
        requires
            old(self).wf(),
        ensures
            final(self).wf(),
            r is None <==> !old(self).dirs().contains_key(entity_key),
            r is None ==> *final(self) == *old(self),
            r is Some ==> {
                let kept = owned_by_others(old(self).owners(), entity_key);
                &&& final(self).dirs() == old(self).dirs().remove(entity_key)
                &&& final(self).comps() == old(self).comps().restrict(kept)
                &&& final(self).owners() == old(self).owners().restrict(kept)
                &&& final(self).slots() == old(self).slots().restrict(kept)
                &&& final(self).kinds() == old(self).kinds()
                &&& final(self).entity_next() == entity_key
                &&& forall|e2: EntityKey| #![trigger final(self).slot_next(e2)] #![trigger final(self).slots_packed(e2)]  e2 != entity_key ==> same_slot_alloc(*old(self), *final(self), e2)
            },
    {
        let keys = match table_get(&self.entities, entity_key) {
            Some(dir) => link_keys(dir),
            None => return None,
        };
        let ghost o = *self;
        let ghost dir0 = o.dirs()[entity_key];
        let mut j: usize = 0;
        while j < keys.len()
            invariant
                self.wf(),
                o.wf(),
                o == *old(self),
                dir0 == o.dirs()[entity_key],
                o.dirs().contains_key(entity_key),
                0 <= j <= keys@.len(),
                ascending_keys(keys@, dir0.dom()),
                self.kinds() == o.kinds(),
                self.dirs().dom() == o.dirs().dom(),
                forall|e2: EntityKey|
                    e2 != entity_key && o.dirs().contains_key(e2) ==> self.dirs()[e2]
                        == o.dirs()[e2],
                forall|jj: int|
                    j <= jj < keys@.len() ==> self.dirs()[entity_key].contains_key(
                        #[trigger] keys@[jj],
                    ) && self.dirs()[entity_key][keys@[jj]] == dir0[keys@[jj]],
                forall|d: usize| #[trigger]
                    self.dirs()[entity_key].contains_key(d) ==> exists|jj: int|
                        j <= jj < keys@.len() && keys@[jj] == d,
                forall|k: CompKey| #[trigger]
                    self.comps().contains_key(k) ==> o.comps().contains_key(k)
                        && self.comps()[k] == o.comps()[k] && self.owners()[k] == o.owners()[k]
                        && self.slots()[k] == o.slots()[k],
                forall|k: CompKey| #[trigger]
                    o.comps().contains_key(k) && o.owners()[k] != entity_key
                        ==> self.comps().contains_key(k),
                forall|e2: EntityKey| e2 != entity_key ==> #[trigger] same_slot_alloc(o, *self, e2),
            decreases keys@.len() - j,
        {
            let d = keys[j];
            let found = match table_get(&self.entities, entity_key) {
                Some(dir) => link_get(dir, d),
                None => None,
            };
            let ghost before = *self;
            match found {
                Some(key) => {
                    proof {
                        assert(before.dirs()[entity_key].contains_key(d));
                        assert(before.has(key));
                    }
                    self.take_comp(key);
                    proof {
                        assert(before.slots()[key] == d);
                        assert(before.owners()[key] == entity_key);
                        assert forall|jj: int| j + 1 <= jj < keys@.len() implies self.dirs()[entity_key].contains_key(
                            #[trigger] keys@[jj],
                        ) && self.dirs()[entity_key][keys@[jj]] == dir0[keys@[jj]] by {
                            assert(keys@[j as int] < keys@[jj]);
                        }
                        assert forall|d2: usize| #[trigger]
                            self.dirs()[entity_key].contains_key(d2) implies exists|jj: int|
                                j + 1 <= jj < keys@.len() && keys@[jj] == d2 by {
                            assert(before.dirs()[entity_key].contains_key(d2));
                            let jj = choose|jj: int| j <= jj < keys@.len() && keys@[jj] == d2;
                            assert(jj != j);
                        }
                        assert forall|k: CompKey| #[trigger]
                            o.comps().contains_key(k) && o.owners()[k] != entity_key
                                implies self.comps().contains_key(k) by {
                            assert(before.comps().contains_key(k));
                            if k == key {
                                assert(o.owners()[k] == entity_key);
                            }
                        }
                        assert forall|e2: EntityKey| e2 != entity_key implies #[trigger] same_slot_alloc(o, *self, e2) by {
                            assert(same_slot_alloc(o, before, e2));
                            assert(same_slot_alloc(before, *self, e2));
                        }
                    }
                },
                None => {},
            }
            j += 1;
        }
        let ghost last = *self;
        table_remove(&mut self.entities, entity_key);
        proof {
            let kept = owned_by_others(o.owners(), entity_key);
            assert(last.dirs()[entity_key] =~= Map::empty()) by {
                assert forall|d: usize| !last.dirs()[entity_key].contains_key(d) by {
                    if last.dirs()[entity_key].contains_key(d) {
                        let jj = choose|jj: int| keys@.len() <= jj < keys@.len() && keys@[jj] == d;
                    }
                }
            }
            assert forall|k: CompKey| self.has(k) == last.has(k) by {}
            assert forall|k: CompKey| #[trigger] last.comps().contains_key(k) implies last.owners()[k] != entity_key by {
                assert(last.has(k));
            }
            assert(self.dirs() =~= o.dirs().remove(entity_key));
            assert forall|k: CompKey| #[trigger] self.comps().contains_key(k) == kept.contains(k) by {
                if self.comps().contains_key(k) {
                    assert(last.comps().contains_key(k));
                }
                if kept.contains(k) {
                    assert(o.comps().contains_key(k));
                    assert(last.comps().contains_key(k));
                }
            }
            assert(self.comps() =~= o.comps().restrict(kept));
            assert(self.owners() =~= o.owners().restrict(kept));
            assert(self.slots() =~= o.slots().restrict(kept));
            assert forall|k: CompKey| #[trigger] self.has(k) implies {
                let (e, d) = self.rows(k.0)[k.1];
                &&& self.dirs().contains_key(e)
                &&& self.dirs()[e].contains_key(d)
                &&& self.dirs()[e][d] == k
            } by {
                assert(last.has(k));
                assert(last.comps().contains_key(k));
            }
            assert forall|e2: EntityKey, d: usize|
                self.dirs().contains_key(e2) && #[trigger] self.dirs()[e2].contains_key(d) implies {
                let k = self.dirs()[e2][d];
                &&& self.has(k)
                &&& self.rows(k.0)[k.1] == (e2, d)
            } by {
                assert(last.dirs()[e2].contains_key(d));
            }
            assert forall|e2: EntityKey| e2 != entity_key implies #[trigger] same_slot_alloc(o, *self, e2) by {
                assert(same_slot_alloc(o, last, e2));
                if table_entries(self.entities).contains_key(e2) {
                    assert(table_entries(self.entities)[e2] == table_entries(last.entities)[e2]);
                }
            }
        }
        Some(())
    }

    /// The value of the component under `comp_key`. Fails when the key names
    /// no live component, also when its kind has no column.
    pub fn get_comp(&self, comp_key: CompKey) -> (r: Option<&C>)
        requires
            self.wf(),
        ensures
            match r {
                Some(v) => self.comps().contains_key(comp_key) && *v == self.comps()[comp_key],
                None => !self.comps().contains_key(comp_key),
            },
    {
        let (kind, row) = comp_key;
        let i = match kinds_get(&self.kinds, kind) {
            Some(i) => i,
            None => return None,
        };
        proof {
            assert(column_wf(self.cols@[i as int]));
        }
        if row < self.cols[i].vals.len() {
            self.cols[i].vals[row].as_ref()
        } else {
            None
        }
    }

    /// A mutable view of the component under `comp_key`; what is written
    /// through it becomes the component's value. The store stays consistent
    /// when what is left there is of the key's kind. Fails when the key names
    /// no live component.
    pub fn get_comp_mut(&mut self, comp_key: CompKey) -> (r: Option<&mut C>)
        requires
            old(self).wf(),
        ensures
            final(self).kinds() == old(self).kinds(),
            final(self).dirs() == old(self).dirs(),
            final(self).owners() == old(self).owners(),
            final(self).slots() == old(self).slots(),
            same_entity_alloc(*old(self), *final(self)),
            forall|k: usize| #![trigger final(self).row_next(k)] #![trigger final(self).rows_packed(k)]  same_row_alloc(*old(self), *final(self), k),
            forall|e: EntityKey| #![trigger final(self).slot_next(e)] #![trigger final(self).slots_packed(e)]  same_slot_alloc(*old(self), *final(self), e),
            match r {
                Some(v) => {
                    &&& old(self).comps().contains_key(comp_key)
                    &&& *v == old(self).comps()[comp_key]
                    &&& final(self).comps() == old(self).comps().insert(comp_key, *final(v))
                    &&& (*final(v)).kind_of() == comp_key.0 ==> final(self).wf()
                },
                None => {
                    &&& !old(self).comps().contains_key(comp_key)
                    &&& *final(self) == *old(self)
                    &&& final(self).wf()
                },
            },
    {
        let (kind, row) = comp_key;
        let i = match kinds_get(&self.kinds, kind) {
            Some(i) => i,
            None => return None,
        };
        proof {
            assert(column_wf(self.cols@[i as int]));
        }
        if row >= self.cols[i].vals.len() || self.cols[i].vals[row].is_none() {
            return None;
        }
        proof {
            let o = *self;
            assert forall|b: Self|
                #![trigger b.wf()]
                Self::same_links(o, b) && Self::columns_wf(b) implies b.wf() by {
                Self::lemma_same_links(o, b);
            }
        }
        self.cols[i].vals[row].as_mut()
    }

    /// The owner of the component under `comp_key`. Fails when the key names
    /// no live component.
    pub fn get_entity_by_comp(&self, comp_key: CompKey) -> (r: Option<EntityKey>)
        requires
            self.wf(),
        ensures
            match r {
                Some(e) => self.comps().contains_key(comp_key) && e == self.owners()[comp_key],
                None => !self.comps().contains_key(comp_key),
            },
    {
        let (kind, row) = comp_key;
        let i = match kinds_get(&self.kinds, kind) {
            Some(i) => i,
            None => return None,
        };
        match link_get(&self.cols[i].rows, row) {
            Some((e, _)) => Some(e),
            None => None,
        }
    }

    /// Registers `kind` with an empty column. Fails when it is registered.
    pub fn register(&mut self, kind: usize) -> (r: Option<()>)
        requires
            old(self).wf(),
        ensures
            final(self).wf(),
            r is None <==> old(self).kinds().contains(kind),
            r is None ==> *final(self) == *old(self),
            final(self).kinds() == old(self).kinds().insert(kind),
            final(self).dirs() == old(self).dirs(),
            final(self).comps() == old(self).comps(),
            final(self).owners() == old(self).owners(),
            final(self).slots() == old(self).slots(),
            same_entity_alloc(*old(self), *final(self)),
            forall|k: usize| #![trigger final(self).row_next(k)] #![trigger final(self).rows_packed(k)]  same_row_alloc(*old(self), *final(self), k),
            forall|e: EntityKey| #![trigger final(self).slot_next(e)] #![trigger final(self).slots_packed(e)]  same_slot_alloc(*old(self), *final(self), e),
    {
        if kinds_get(&self.kinds, kind).is_some() {
            proof {
                assert(old(self).kinds().insert(kind) =~= old(self).kinds());
            }
            return None;
        }
        self.column_of(kind);
        Some(())
    }

    /// Removes every entity, component and kind.
    pub fn clear(&mut self)
        ensures
            final(self).wf(),
            final(self).dirs() =~= Map::empty(),
            final(self).kinds() =~= Set::empty(),
            final(self).comps() =~= Map::empty(),
            final(self).owners() =~= Map::empty(),
            final(self).slots() =~= Map::empty(),
            fresh_alloc(*final(self)),
    {
        *self = Self::new();
    }

    /// The values of all components of `kind`, in ascending order of their
    /// rows. Fails when `kind` is not registered.
    pub fn iter_comp(&self, kind: usize) -> (r: Option<Vec<&C>>)
        requires
            self.wf(),
        ensures
            match r {
                None => !self.kinds().contains(kind),
                Some(vs) => {
                    &&& self.kinds().contains(kind)
                    &&& exists|rows: Seq<usize>| #[trigger]
                        ascending_keys(rows, rows_of_kind(self.comps(), kind)) && vs@.len()
                            == rows.len() && forall|j: int|
                            0 <= j < rows.len() ==> *vs@[j] == self.comps()[(kind, rows[j])]
                },
            },
    {
        let i = match kinds_get(&self.kinds, kind) {
            Some(i) => i,
            None => return None,
        };
        let col = &self.cols[i];
        let keys = link_keys(&col.rows);
        proof {
            assert(column_wf(*col));
        }
        let mut out: Vec<&C> = Vec::new();
        let mut j: usize = 0;
        while j < keys.len()
            invariant
                self.wf(),
                kind_entries(self.kinds).contains_key(kind),
                *col == self.col(kind),
                column_wf(*col),
                ascending_keys(keys@, link_entries(col.rows).dom()),
                0 <= j <= keys@.len(),
                out@.len() == j,
                forall|jj: int| 0 <= jj < j ==> *out@[jj] == self.comps()[(kind, keys@[jj])],
            decreases keys@.len() - j,
        {
            let r = keys[j];
            proof {
                assert(link_entries(col.rows).contains_key(r));
                assert(self.has((kind, r)));
            }
            match col.vals[r].as_ref() {
                Some(v) => out.push(v),
                None => {},
            }
            j += 1;
        }
        proof {
            assert(rows_of_kind(self.comps(), kind) =~= link_entries(col.rows).dom());
            assert(ascending_keys(keys@, rows_of_kind(self.comps(), kind)));
        }
        Some(out)
    }

    /// The values of the components of `kind` that `entity_key` owns, in
    /// ascending order of their slots in its directory. Slots are handed out
    /// in insertion order while none is freed; a slot freed by removing any of
    /// the entity's components is taken again first. Fails when the entity is
    /// not live or `kind` is not registered.
    pub fn iter_comp_by_entity(&self, entity_key: EntityKey, kind: usize) -> (r: Option<Vec<&C>>)
        requires
            self.wf(),
        ensures
            match r {
                None => !self.dirs().contains_key(entity_key) || !self.kinds().contains(kind),
                Some(vs) => {
                    let dir = self.dirs()[entity_key];
                    &&& self.dirs().contains_key(entity_key)
                    &&& self.kinds().contains(kind)
                    &&& exists|slots: Seq<usize>| #[trigger]
                        ascending_keys(slots, slots_of_kind(dir, kind)) && vs@.len()
                            == slots.len() && forall|j: int|
                            0 <= j < slots.len() ==> *vs@[j] == self.comps()[dir[slots[j]]]
                    &&& scoped_values(*self, entity_key, kind, vs@.map_values(|x: &C| *x))
                },
            },
    {
        let i = match kinds_get(&self.kinds, kind) {
            Some(i) => i,
            None => return None,
        };
        let dir = match table_get(&self.entities, entity_key) {
            Some(dir) => dir,
            None => return None,
        };
        let col = &self.cols[i];
        let keys = link_keys(dir);
        let ghost d = self.dirs()[entity_key];
        proof {
            assert(column_wf(*col));
        }
        let mut out: Vec<&C> = Vec::new();
        let ghost mut slots: Seq<usize> = Seq::empty();
        let ghost mut idx: Seq<int> = Seq::empty();
        let mut j: usize = 0;
        while j < keys.len()
            invariant
                self.wf(),
                kind_entries(self.kinds).contains_key(kind),
                *col == self.col(kind),
                column_wf(*col),
                self.dirs().contains_key(entity_key),
                d == self.dirs()[entity_key],
                d == link_entries(*dir),
                ascending_keys(keys@, d.dom()),
                0 <= j <= keys@.len(),
                out@.len() == slots.len(),
                idx.len() == slots.len(),
                forall|t: int| 0 <= t < idx.len() ==> 0 <= #[trigger] idx[t] < j,
                forall|t: int, u: int| 0 <= t < u < idx.len() ==> idx[t] < idx[u],
                forall|t: int| 0 <= t < idx.len() ==> slots[t] == keys@[#[trigger] idx[t]],
                forall|t: int| 0 <= t < slots.len() ==> #[trigger] d[slots[t]].0 == kind,
                forall|jj: int|
                    0 <= jj < j && d[keys@[jj]].0 == kind ==> exists|t: int|
                        0 <= t < slots.len() && #[trigger] slots[t] == keys@[jj],
                forall|t: int| 0 <= t < slots.len() ==> *out@[t] == self.comps()[d[slots[t]]],
            decreases keys@.len() - j,
        {
            let s = keys[j];
            let ghost slots0 = slots;
            proof {
                assert(d.dom().contains(keys@[j as int]));
            }
            let (k, r) = match link_get(dir, s) {
                Some(l) => l,
                None => (kind, 0),
            };
            if k == kind {
                proof {
                    assert(self.has((k, r)));
                    assert(link_entries(col.rows).contains_key(r));
                }
                match col.vals[r].as_ref() {
                    Some(v) => {
                        out.push(v);
                        proof {
                            slots = slots.push(s);
                            idx = idx.push(j as int);
                            assert(slots[slots.len() - 1] == keys@[j as int]);
                        }
                    },
                    None => {},
                }
            }
            proof {
                assert forall|jj: int|
                    0 <= jj < j + 1 && d[keys@[jj]].0 == kind implies exists|t: int|
                        0 <= t < slots.len() && #[trigger] slots[t] == keys@[jj] by {
                    if jj < j {
                        let t = choose|t: int| 0 <= t < slots0.len() && #[trigger] slots0[t] == keys@[jj];
                        assert(slots[t] == slots0[t]);
                    } else {
                        assert(slots[slots.len() - 1] == keys@[jj]);
                    }
                }
            }
            j += 1;
        }
        proof {
            let want = slots_of_kind(d, kind);
            assert forall|t: int, u: int| 0 <= t < u < slots.len() implies slots[t] < slots[u] by {
                assert(idx[t] < idx[u]);
                assert(keys@[idx[t]] < keys@[idx[u]]);
            }
            assert forall|t: int| 0 <= t < slots.len() implies want.contains(#[trigger] slots[t]) by {
                assert(d.dom().contains(keys@[idx[t]]));
            }
            assert forall|x: usize| want.contains(x) implies exists|t: int|
                0 <= t < slots.len() && slots[t] == x by {
                let jj = choose|jj: int| 0 <= jj < keys@.len() && keys@[jj] == x;
                assert(d[keys@[jj]].0 == kind);
            }
            assert(ascending_keys(slots, want));
            let vals = out@.map_values(|x: &C| *x);
            assert(vals.len() == slots.len() && forall|j: int| 0 <= j < slots.len() ==> vals[j] == self.comps()[d[slots[j]]]);
        }
        Some(out)
    }

    /// Replaces the value of each component `(kind, r)`, for `r` in `rows`, by
    /// `f` of that value. The rows are distinct, so each value is taken out,
    /// mapped and put back on its own.
    fn apply_rows<F: Fn(C) -> C>(&mut self, kind: usize, rows: &Vec<usize>, f: &F)
        requires
            old(self).wf(),
            old(self).kinds().contains(kind),
            forall|a: int, b: int| 0 <= a < b < rows@.len() ==> rows@[a] != rows@[b],
            forall|t: int|
                0 <= t < rows@.len() ==> old(self).comps().contains_key((kind, #[trigger] rows@[t])),
            forall|c: C| f.requires((c,)),
            forall|c: C, c2: C| #[trigger] f.ensures((c,), c2) ==> c2.kind_of() == c.kind_of(),
        ensures
            final(self).wf(),
            Self::same_links(*old(self), *final(self)),
            final(self).comps().dom() == old(self).comps().dom(),
            same_entity_alloc(*old(self), *final(self)),
            forall|k: usize| #![trigger final(self).row_next(k)] #![trigger final(self).rows_packed(k)]  same_row_alloc(*old(self), *final(self), k),
            forall|e: EntityKey| #![trigger final(self).slot_next(e)] #![trigger final(self).slots_packed(e)]  same_slot_alloc(*old(self), *final(self), e),
            forall|k: CompKey| #[trigger]
                final(self).comps().contains_key(k) ==> if k.0 == kind && rows@.contains(k.1) {
                    f.ensures((old(self).comps()[k],), final(self).comps()[k])
                } else {
                    final(self).comps()[k] == old(self).comps()[k]
                },
    {
        let i = match kinds_get(&self.kinds, kind) {
            Some(i) => i,
            None => return,
        };
        let ghost o = *self;
        let mut t: usize = 0;
        while t < rows.len()
            invariant
                o == *old(self),
                o.wf(),
                self.wf(),
                Self::same_links(o, *self),
                kind_entries(self.kinds).contains_key(kind),
                kind_entries(self.kinds)[kind] == i,
                0 <= t <= rows@.len(),
                forall|a: int, b: int| 0 <= a < b < rows@.len() ==> rows@[a] != rows@[b],
                forall|u: int|
                    0 <= u < rows@.len() ==> o.comps().contains_key((kind, #[trigger] rows@[u])),
                forall|c: C| f.requires((c,)),
                forall|c: C, c2: C| #[trigger] f.ensures((c,), c2) ==> c2.kind_of() == c.kind_of(),
            forall|c: C, c2: C| #[trigger] f.ensures((c,), c2) ==> c2.kind_of() == c.kind_of(),
                self.comps().dom() == o.comps().dom(),
                forall|k: CompKey| #[trigger]
                    self.comps().contains_key(k) ==> if k.0 == kind && rows@.subrange(
                        0,
                        t as int,
                    ).contains(k.1) {
                        f.ensures((o.comps()[k],), self.comps()[k])
                    } else {
                        self.comps()[k] == o.comps()[k]
                    },
            decreases rows@.len() - t,
        {
            let r = rows[t];
            let ghost before = *self;
            proof {
                Self::lemma_same_links(o, before);
                assert(before.has((kind, r)));
                assert(column_wf(before.cols@[i as int]));
            }
            let taken = self.cols[i].vals[r].take();
            let ghost mut c1: Option<C> = None;
            let ghost mut c2: Option<C> = None;
            match taken {
                Some(c) => {
                    proof {
                        c1 = Some(c);
                    }
                    let v = f(c);
                    proof {
                        c2 = Some(v);
                    }
                    self.cols[i].vals[r] = Some(v);
                },
                None => {},
            }
            proof {
                assert(c1 == before.cols@[i as int].vals@[r as int]);
                assert(self.cols@[i as int].vals@[r as int] == c2);
                assert(f.ensures((c1->Some_0,), c2->Some_0));
            }
            proof {
                assert(Self::same_links(o, *self)) by {
                    assert forall|j: int| 0 <= j < o.cols@.len() implies (#[trigger] o.cols@[j]).kind
                        == self.cols@[j].kind && o.cols@[j].rows == self.cols@[j].rows by {
                        assert(before.cols@[j].rows == o.cols@[j].rows);
                    }
                }
                assert(Self::columns_wf(*self)) by {
                    assert forall|j: int| 0 <= j < self.cols@.len() implies column_wf(
                        #[trigger] self.cols@[j],
                    ) by {
                        assert(column_wf(before.cols@[j]));
                        if j == i {
                            assert forall|x: usize| #[trigger]
                                link_entries(self.cols@[j].rows).contains_key(x) <==> (x
                                    < self.cols@[j].vals@.len() && self.cols@[j].vals@[x as int] is Some) by {
                                if x != r && x < before.cols@[j].vals@.len() {
                                    assert(self.cols@[j].vals@[x as int] == before.cols@[j].vals@[x as int]);
                                }
                            }
                        } else {
                            assert(self.cols@[j] == before.cols@[j]);
                        }
                    }
                }
                Self::lemma_same_links(o, *self);
                assert(rows@.subrange(0, t + 1) =~= rows@.subrange(0, t as int).push(r));
                assert forall|k: CompKey| #[trigger]
                    self.comps().contains_key(k) implies if k.0 == kind && rows@.subrange(
                        0,
                        t + 1,
                    ).contains(k.1) {
                        f.ensures((o.comps()[k],), self.comps()[k])
                    } else {
                        self.comps()[k] == o.comps()[k]
                    } by {
                    assert(before.comps().contains_key(k));
                    if k == (kind, r) {
                        assert(before.comps()[k] == c1->Some_0);
                        assert(self.comps()[k] == c2->Some_0);
                        assert(rows@.subrange(0, t + 1)[t as int] == r);
                        assert(rows@.subrange(0, t + 1).contains(r));
                        assert(!rows@.subrange(0, t as int).contains(r)) by {
                            if rows@.subrange(0, t as int).contains(r) {
                                let u = choose|u: int| 0 <= u < t && rows@.subrange(0, t as int)[u] == r;
                                assert(rows@[u] == rows@[t as int]);
                            }
                        }
                    } else if k.0 == kind {
                        assert(self.cols@[i as int].vals@[k.1 as int] == before.cols@[i as int].vals@[k.1 as int]);
                        assert(self.comps()[k] == before.comps()[k]);
                        assert(rows@.subrange(0, t + 1).contains(k.1) == rows@.subrange(0, t as int).contains(k.1)) by {
                            if rows@.subrange(0, t + 1).contains(k.1) {
                                let u = choose|u: int| 0 <= u < t + 1 && #[trigger] rows@.subrange(0, t + 1)[u] == k.1;
                                assert(u < t);
                                assert(rows@.subrange(0, t as int)[u] == k.1);
                            }
                            if rows@.subrange(0, t as int).contains(k.1) {
                                let u = choose|u: int| 0 <= u < t && #[trigger] rows@.subrange(0, t as int)[u] == k.1;
                                assert(rows@.subrange(0, t + 1)[u] == k.1);
                            }
                        }
                    } else {
                        let j = kind_entries(self.kinds)[k.0];
                        assert(j != i);
                        assert(self.cols@[j as int] == before.cols@[j as int]);
                        assert(self.comps()[k] == before.comps()[k]);
                    }
                }
            }
            t += 1;
        }
        proof {
            assert(rows@.subrange(0, rows@.len() as int) =~= rows@);
        }
    }

    /// Replaces the value of every component of `kind` by `f` of that value.
    /// Fails when `kind` is not registered.
    pub fn iter_comp_mut<F: Fn(C) -> C>(&mut self, kind: usize, f: F) -> (r: Option<()>)
        requires
            old(self).wf(),
            forall|c: C| f.requires((c,)),
            forall|c: C, c2: C| #[trigger] f.ensures((c,), c2) ==> c2.kind_of() == c.kind_of(),
        ensures
            final(self).wf(),
            r is None <==> !old(self).kinds().contains(kind),
            r is None ==> *final(self) == *old(self),
            final(self).kinds() == old(self).kinds(),
            final(self).dirs() == old(self).dirs(),
            final(self).owners() == old(self).owners(),
            final(self).slots() == old(self).slots(),
            final(self).comps().dom() == old(self).comps().dom(),
            same_entity_alloc(*old(self), *final(self)),
            forall|k: usize| #![trigger final(self).row_next(k)] #![trigger final(self).rows_packed(k)]  same_row_alloc(*old(self), *final(self), k),
            forall|e: EntityKey| #![trigger final(self).slot_next(e)] #![trigger final(self).slots_packed(e)]  same_slot_alloc(*old(self), *final(self), e),
            forall|k: CompKey| #[trigger]
                final(self).comps().contains_key(k) ==> if k.0 == kind {
                    f.ensures((old(self).comps()[k],), final(self).comps()[k])
                } else {
                    final(self).comps()[k] == old(self).comps()[k]
                },
    {
        let i = match kinds_get(&self.kinds, kind) {
            Some(i) => i,
            None => return None,
        };
        let keys = link_keys(&self.cols[i].rows);
        proof {
            assert forall|a: int, b: int| 0 <= a < b < keys@.len() implies keys@[a] != keys@[b] by {}
            assert forall|t: int| 0 <= t < keys@.len() implies self.comps().contains_key((kind, #[trigger] keys@[t])) by {
                assert(link_entries(self.cols@[i as int].rows).contains_key(keys@[t]));
                assert(self.has((kind, keys@[t])));
            }
        }
        self.apply_rows(kind, &keys, &f);
        proof {
            Self::lemma_same_links(*old(self), *self);
            assert forall|k: CompKey| #[trigger] self.comps().contains_key(k) && k.0 == kind implies keys@.contains(k.1) by {
                assert(old(self).has(k));
                assert(link_entries(old(self).cols@[i as int].rows).contains_key(k.1));
            }
        }
        Some(())
    }

    /// Replaces the value of every component of `kind` that `entity_key` owns
    /// by `f` of that value. The rows to visit are collected from the
    /// entity's directory before any value is touched. Fails when the entity
    /// is not live or `kind` is not registered.
    pub fn iter_comp_mut_by_entity<F: Fn(C) -> C>(
        &mut self,
        entity_key: EntityKey,
        kind: usize,
        f: F,
    ) -> (r: Option<()>)
        requires
            old(self).wf(),
            forall|c: C| f.requires((c,)),
            forall|c: C, c2: C| #[trigger] f.ensures((c,), c2) ==> c2.kind_of() == c.kind_of(),
        ensures
            final(self).wf(),
            r is None <==> !old(self).dirs().contains_key(entity_key) || !old(self).kinds().contains(
                kind,
            ),
            r is None ==> *final(self) == *old(self),
            final(self).kinds() == old(self).kinds(),
            final(self).dirs() == old(self).dirs(),
            final(self).owners() == old(self).owners(),
            final(self).slots() == old(self).slots(),
            final(self).comps().dom() == old(self).comps().dom(),
            same_entity_alloc(*old(self), *final(self)),
            forall|k: usize| #![trigger final(self).row_next(k)] #![trigger final(self).rows_packed(k)]  same_row_alloc(*old(self), *final(self), k),
            forall|e: EntityKey| #![trigger final(self).slot_next(e)] #![trigger final(self).slots_packed(e)]  same_slot_alloc(*old(self), *final(self), e),
            forall|k: CompKey| #[trigger]
                final(self).comps().contains_key(k) ==> if k.0 == kind && old(self).owners()[k]
                    == entity_key {
                    f.ensures((old(self).comps()[k],), final(self).comps()[k])
                } else {
                    final(self).comps()[k] == old(self).comps()[k]
                },
    {
        if kinds_get(&self.kinds, kind).is_none() {
            return None;
        }
        let dir = match table_get(&self.entities, entity_key) {
            Some(dir) => dir,
            None => return None,
        };
        let keys = link_keys(dir);
        let ghost d = self.dirs()[entity_key];
        let mut rows: Vec<usize> = Vec::new();
        let mut j: usize = 0;
        while j < keys.len()
            invariant
                self.wf(),
                self.dirs().contains_key(entity_key),
                d == self.dirs()[entity_key],
                d == link_entries(*dir),
                ascending_keys(keys@, d.dom()),
                0 <= j <= keys@.len(),
                forall|a: int, b: int| 0 <= a < b < rows@.len() ==> rows@[a] != rows@[b],
                forall|t: int|
                    0 <= t < rows@.len() ==> self.comps().contains_key((kind, #[trigger] rows@[t]))
                        && self.owners()[(kind, rows@[t])] == entity_key && exists|jj: int|
                        0 <= jj < j && keys@[jj] == self.slots()[(kind, rows@[t])],
                forall|jj: int|
                    0 <= jj < j && #[trigger] d[keys@[jj]].0 == kind ==> rows@.contains(
                        d[keys@[jj]].1,
                    ),
            decreases keys@.len() - j,
        {
            let s = keys[j];
            proof {
                assert(d.dom().contains(keys@[j as int]));
            }
            let (k, r) = match link_get(dir, s) {
                Some(l) => l,
                None => (kind, 0),
            };
            let ghost rows0 = rows@;
            if k == kind {
                proof {
                    assert(self.has((k, r)));
                    assert(self.slots()[(k, r)] == s);
                    assert forall|t: int| 0 <= t < rows0.len() implies rows0[t] != r by {
                        let jj = choose|jj: int|
                            0 <= jj < j && keys@[jj] == self.slots()[(kind, rows0[t])];
                        assert(keys@[jj] < keys@[j as int]);
                    }
                }
                rows.push(r);
            }
            proof {
                assert forall|t: int|
                    0 <= t < rows@.len() implies self.comps().contains_key((kind, #[trigger] rows@[t]))
                        && self.owners()[(kind, rows@[t])] == entity_key && exists|jj: int|
                        0 <= jj < j + 1 && keys@[jj] == self.slots()[(kind, rows@[t])] by {
                    if t < rows0.len() {
                        assert(rows@[t] == rows0[t]);
                    } else {
                        assert(keys@[j as int] == self.slots()[(kind, rows@[t])]);
                    }
                }
                assert forall|jj: int|
                    0 <= jj < j + 1 && #[trigger] d[keys@[jj]].0 == kind implies rows@.contains(
                        d[keys@[jj]].1,
                    ) by {
                    if jj < j {
                        let t = choose|t: int| 0 <= t < rows0.len() && rows0[t] == d[keys@[jj]].1;
                        assert(rows@[t] == rows0[t]);
                    } else {
                        assert(rows@[rows@.len() - 1] == r);
                    }
                }
            }
            j += 1;
        }
        let ghost o = *self;
        proof {
            assert forall|k: CompKey| #[trigger] o.comps().contains_key(k) && k.0 == kind implies
                (rows@.contains(k.1) <==> o.owners()[k] == entity_key) by {
                if o.owners()[k] == entity_key {
                    assert(o.has(k));
                    let sl = o.slots()[k];
                    assert(d.contains_key(sl));
                    let jj = choose|jj: int| 0 <= jj < keys@.len() && keys@[jj] == sl;
                    assert(d[keys@[jj]] == k);
                }
                if rows@.contains(k.1) {
                    let t = choose|t: int| 0 <= t < rows@.len() && rows@[t] == k.1;
                    assert(o.comps().contains_key((kind, rows@[t])));
                }
            }
        }
        self.apply_rows(kind, &rows, &f);
        proof {
            Self::lemma_same_links(o, *self);
        }
        Some(())
    }

    /// Unregisters `kind`: its column goes, with every component of that
    /// kind and the directory entries that named them. Fails when `kind` is
    /// not registered.
    pub fn unregister(&mut self, kind: usize) -> (r: Option<()>)
        requires
            old(self).wf(),
        ensures
            final(self).wf(),
            r is None <==> !old(self).kinds().contains(kind),
            r is None ==> *final(self) == *old(self),
            r is Some ==> {
                &&& final(self).kinds() == old(self).kinds().remove(kind)
                &&& final(self).comps() == old(self).comps().restrict(other_kinds(kind))
                &&& final(self).owners() == old(self).owners().restrict(other_kinds(kind))
                &&& final(self).slots() == old(self).slots().restrict(other_kinds(kind))
                &&& final(self).dirs() == old(self).dirs().map_values(
                    |dir: Map<usize, CompKey>| without_kind(dir, kind),
                )
                &&& final(self).row_next(kind) == 0
                &&& final(self).rows_packed(kind)
                &&& forall|k: usize| #![trigger final(self).row_next(k)] #![trigger final(self).rows_packed(k)]  k != kind ==> same_row_alloc(*old(self), *final(self), k)
                &&& same_entity_alloc(*old(self), *final(self))
            },
    {
        let i = match kinds_get(&self.kinds, kind) {
            Some(i) => i,
            None => return None,
        };
        let keys = link_keys(&self.cols[i].rows);
        let ghost o = *self;
        proof {
            assert forall|jj: int| 0 <= jj < keys@.len() implies o.comps().contains_key(
                (kind, #[trigger] keys@[jj]),
            ) by {
                assert(link_entries(o.cols@[i as int].rows).contains_key(keys@[jj]));
                assert(o.has((kind, keys@[jj])));
            }
            assert forall|k: CompKey| #[trigger]
                o.comps().contains_key(k) && k.0 == kind implies exists|jj: int|
                0 <= jj < keys@.len() && keys@[jj] == k.1 by {
                assert(link_entries(o.cols@[i as int].rows).contains_key(k.1));
            }
        }
        let mut j: usize = 0;
        while j < keys.len()
            invariant
                self.wf(),
                o.wf(),
                o == *old(self),
                0 <= j <= keys@.len(),
                forall|a: int, b: int| 0 <= a < b < keys@.len() ==> keys@[a] < keys@[b],
                self.kinds() == o.kinds(),
                kind_entries(self.kinds) == kind_entries(o.kinds),
                self.dirs().dom() == o.dirs().dom(),
                forall|e: EntityKey, sl: usize|
                    self.dirs().contains_key(e) && #[trigger] self.dirs()[e].contains_key(sl)
                        ==> o.dirs()[e].contains_key(sl) && self.dirs()[e][sl] == o.dirs()[e][sl],
                forall|e: EntityKey, sl: usize|
                    o.dirs().contains_key(e) && #[trigger] o.dirs()[e].contains_key(sl)
                        && o.dirs()[e][sl].0 != kind ==> self.dirs()[e].contains_key(sl),
                forall|k: CompKey| #[trigger]
                    self.comps().contains_key(k) ==> o.comps().contains_key(k)
                        && self.comps()[k] == o.comps()[k] && self.owners()[k] == o.owners()[k]
                        && self.slots()[k] == o.slots()[k],
                forall|k: CompKey| #[trigger]
                    o.comps().contains_key(k) && k.0 != kind ==> self.comps().contains_key(k),
                forall|jj: int|
                    j <= jj < keys@.len() ==> self.comps().contains_key((kind, #[trigger] keys@[jj])),
                forall|k: CompKey| #[trigger]
                    self.comps().contains_key(k) && k.0 == kind ==> exists|jj: int|
                        j <= jj < keys@.len() && keys@[jj] == k.1,
                forall|k2: usize| k2 != kind ==> #[trigger] same_row_alloc(o, *self, k2),
                same_entity_alloc(o, *self),
            decreases keys@.len() - j,
        {
            let key = (kind, keys[j]);
            let ghost before = *self;
            self.take_comp(key);
            proof {
                let e = before.owners()[key];
                let sl = before.slots()[key];
                assert(before.has(key));
                assert forall|e2: EntityKey, s2: usize|
                    o.dirs().contains_key(e2) && #[trigger] o.dirs()[e2].contains_key(s2)
                        && o.dirs()[e2][s2].0 != kind implies self.dirs()[e2].contains_key(s2) by {
                    assert(before.dirs()[e2].contains_key(s2));
                    if e2 == e && s2 == sl {
                        assert(before.dirs()[e][sl] == key);
                    }
                }
                assert forall|jj: int|
                    j + 1 <= jj < keys@.len() implies self.comps().contains_key((kind, #[trigger] keys@[jj])) by {
                    assert(keys@[j as int] < keys@[jj]);
                }
                assert forall|k: CompKey| #[trigger]
                    self.comps().contains_key(k) && k.0 == kind implies exists|jj: int|
                        j + 1 <= jj < keys@.len() && keys@[jj] == k.1 by {
                    assert(before.comps().contains_key(k));
                    let jj = choose|jj: int| j <= jj < keys@.len() && keys@[jj] == k.1;
                    assert(jj != j);
                }
                assert forall|k: CompKey| #[trigger]
                    o.comps().contains_key(k) && k.0 != kind implies self.comps().contains_key(k) by {
                    assert(before.comps().contains_key(k));
                }
                assert forall|k2: usize| k2 != kind implies #[trigger] same_row_alloc(o, *self, k2) by {
                    assert(same_row_alloc(o, before, k2));
                    assert(same_row_alloc(before, *self, k2));
                }
            }
            j += 1;
        }
        let ghost last = *self;
        proof {
            assert forall|k: CompKey| #[trigger] last.has(k) implies k.0 != kind by {
                assert(last.comps().contains_key(k));
            }
            assert(column_wf(last.cols@[i as int]));
        }
        self.cols.swap_remove(i);
        if i < self.cols.len() {
            let moved = self.cols[i].kind;
            kinds_insert(&mut self.kinds, moved, i);
        }
        kinds_remove(&mut self.kinds, kind);
        proof {
            let n = last.cols@.len() - 1;
            assert forall|k2: CompKey| #[trigger] self.has(k2) == (last.has(k2) && k2.0 != kind)
                && (self.has(k2) ==> self.col(k2.0) == last.col(k2.0)) by {
                if k2.0 != kind && kind_entries(last.kinds).contains_key(k2.0) {
                    let j2 = kind_entries(last.kinds)[k2.0];
                    if j2 == n {
                        assert(self.cols@[i as int] == last.cols@[n]);
                    } else {
                        assert(j2 != i);
                        assert(self.cols@[j2 as int] == last.cols@[j2 as int]);
                    }
                }
            }
            assert(self.kinds() =~= o.kinds().remove(kind));
            assert(self.comps() =~= o.comps().restrict(other_kinds(kind)));
            assert(self.owners() =~= o.owners().restrict(other_kinds(kind)));
            assert(self.slots() =~= o.slots().restrict(other_kinds(kind)));
            assert forall|e: EntityKey| #[trigger] self.dirs().contains_key(e) implies self.dirs()[e] =~= without_kind(o.dirs()[e], kind) by {
                assert forall|sl: usize| #[trigger] self.dirs()[e].contains_key(sl) implies self.dirs()[e][sl].0 != kind by {
                    assert(last.has(last.dirs()[e][sl]));
                }
            }
            assert(self.dirs() =~= o.dirs().map_values(|dir: Map<usize, CompKey>| without_kind(dir, kind)));
            assert forall|k2: usize| #[trigger]
                kind_entries(self.kinds).contains_key(k2) implies kind_entries(self.kinds)[k2]
                    < self.cols@.len() && self.cols@[kind_entries(self.kinds)[k2] as int].kind == k2 by {
                let j2 = kind_entries(last.kinds)[k2];
                if j2 != n {
                    assert(j2 != i);
                    assert(self.cols@[j2 as int] == last.cols@[j2 as int]);
                }
            }
            assert forall|i2: int|
                0 <= i2 < self.cols@.len() implies kind_entries(self.kinds).contains_key(
                    #[trigger] self.cols@[i2].kind,
                ) && kind_entries(self.kinds)[self.cols@[i2].kind] == i2 by {
                if i2 == i {
                    assert(self.cols@[i2] == last.cols@[n]);
                } else {
                    assert(self.cols@[i2] == last.cols@[i2]);
                }
            }
            assert forall|i2: int| 0 <= i2 < self.cols@.len() implies column_wf(#[trigger] self.cols@[i2]) by {
                if i2 == i {
                    assert(column_wf(last.cols@[n]));
                } else {
                    assert(column_wf(last.cols@[i2]));
                }
            }
            assert forall|k2: CompKey| #[trigger] self.has(k2) implies {
                let (e, d) = self.rows(k2.0)[k2.1];
                &&& self.dirs().contains_key(e)
                &&& self.dirs()[e].contains_key(d)
                &&& self.dirs()[e][d] == k2
            } by {
                assert(last.has(k2));
            }
            assert forall|e: EntityKey, d: usize|
                self.dirs().contains_key(e) && #[trigger] self.dirs()[e].contains_key(d) implies {
                let k2 = self.dirs()[e][d];
                &&& self.has(k2)
                &&& self.rows(k2.0)[k2.1] == (e, d)
            } by {
                let k2 = self.dirs()[e][d];
                assert(last.has(k2));
            }
            assert forall|k2: usize| k2 != kind implies #[trigger] same_row_alloc(o, *self, k2) by {
                assert(same_row_alloc(o, last, k2));
                if kind_entries(last.kinds).contains_key(k2) {
                    assert(self.col(k2) == last.col(k2));
                }
            }
        }
        Some(())
    }

    /// The links of a consistent store: every live component sits in the
    /// directory of a live owner, under its slot, and every directory entry
    /// names a live component that the entity owns under that slot.
    pub proof fn lemma_links(&self)
        requires
            self.wf(),
        ensures
            self.owners().dom() == self.comps().dom(),
            self.slots().dom() == self.comps().dom(),
            forall|k: CompKey| #[trigger]
                self.comps().contains_key(k) ==> {
                    let e = self.owners()[k];
                    &&& self.dirs().contains_key(e)
                    &&& self.dirs()[e].contains_key(self.slots()[k])
                    &&& self.dirs()[e][self.slots()[k]] == k
                },
            forall|e: EntityKey, s: usize|
                self.dirs().contains_key(e) && #[trigger] self.dirs()[e].contains_key(s) ==> {
                    let k = self.dirs()[e][s];
                    &&& self.comps().contains_key(k)
                    &&& self.owners()[k] == e
                    &&& self.slots()[k] == s
                },
    {
        assert(self.owners().dom() =~= self.comps().dom());
        assert(self.slots().dom() =~= self.comps().dom());
        assert forall|k: CompKey| #[trigger] self.comps().contains_key(k) implies {
            let e = self.owners()[k];
            &&& self.dirs().contains_key(e)
            &&& self.dirs()[e].contains_key(self.slots()[k])
            &&& self.dirs()[e][self.slots()[k]] == k
        } by {
            assert(self.has(k));
        }
        assert forall|e: EntityKey, s: usize|
            self.dirs().contains_key(e) && #[trigger] self.dirs()[e].contains_key(s) implies {
            let k = self.dirs()[e][s];
            &&& self.comps().contains_key(k)
            &&& self.owners()[k] == e
            &&& self.slots()[k] == s
        } by {
            assert(self.has(self.dirs()[e][s]));
        }
    }

    /// A consistent store never holds a value under a key of another kind:
    /// what `get_comp(k)` returns is of kind `k.0`.
    pub proof fn lemma_kinds(&self)
        requires
            self.wf(),
        ensures
            forall|k: CompKey| #[trigger]
                self.comps().contains_key(k) ==> self.comps()[k].kind_of() == k.0,
    {
        assert forall|k: CompKey| #[trigger] self.comps().contains_key(k) implies self.comps()[k].kind_of() == k.0 by {
            assert(column_wf(self.cols@[kind_entries(self.kinds)[k.0] as int]));
        }
    }

    /// `a` and `b` differ at most in the values they hold.
    spec fn same_links(a: Self, b: Self) -> bool {
        &&& a.entities == b.entities
        &&& a.kinds == b.kinds
        &&& a.cols@.len() == b.cols@.len()
        &&& forall|j: int|
            0 <= j < a.cols@.len() ==> (#[trigger] a.cols@[j]).kind == b.cols@[j].kind
                && a.cols@[j].rows == b.cols@[j].rows
    }

    /// Every column holds a value exactly at its rows.
    spec fn columns_wf(a: Self) -> bool {
        forall|j: int| 0 <= j < a.cols@.len() ==> column_wf(#[trigger] a.cols@[j])
    }

    /// Changing values alone keeps the store consistent, and keeps what it
    /// links.
    proof fn lemma_same_links(a: Self, b: Self)
        requires
            a.wf(),
            Self::same_links(a, b),
            Self::columns_wf(b),
        ensures
            b.wf(),
            b.dirs() == a.dirs(),
            b.kinds() == a.kinds(),
            b.owners() == a.owners(),
            b.slots() == a.slots(),
            forall|k: CompKey| #[trigger] b.has(k) == a.has(k),
    {
        assert forall|k: CompKey| #[trigger] b.has(k) == a.has(k) && (a.has(k) ==> b.rows(k.0)[k.1]
            == a.rows(k.0)[k.1]) by {
            if kind_entries(a.kinds).contains_key(k.0) {
                assert(a.cols@[kind_entries(a.kinds)[k.0] as int].rows == b.cols@[kind_entries(a.kinds)[k.0] as int].rows);
            }
        }
        assert(b.owners() =~= a.owners());
        assert(b.slots() =~= a.slots());
        assert forall|k: CompKey| #[trigger] b.has(k) implies {
            let (e, d) = b.rows(k.0)[k.1];
            &&& b.dirs().contains_key(e)
            &&& b.dirs()[e].contains_key(d)
            &&& b.dirs()[e][d] == k
        } by {
            assert(a.has(k));
        }
        assert forall|e: EntityKey, d: usize|
            b.dirs().contains_key(e) && #[trigger] b.dirs()[e].contains_key(d) implies {
            let k = b.dirs()[e][d];
            &&& b.has(k)
            &&& b.rows(k.0)[k.1] == (e, d)
        } by {
            assert(a.dirs()[e].contains_key(d));
            assert(a.has(a.dirs()[e][d]));
        }
        assert forall|i: int|
            0 <= i < b.cols@.len() implies kind_entries(b.kinds).contains_key(
            #[trigger] b.cols@[i].kind,
        ) && kind_entries(b.kinds)[b.cols@[i].kind] == i by {
            assert(a.cols@[i].kind == b.cols@[i].kind);
        }
    }

    /// The index of the column of `kind`, which is created empty if absent.
    fn column_of(&mut self, kind: usize) -> (i: usize)
        requires
            old(self).wf(),
        ensures
            final(self).wf(),
            i < final(self).cols@.len(),
            kind_entries(final(self).kinds).contains_key(kind),
            kind_entries(final(self).kinds)[kind] == i,
            final(self).kinds() == old(self).kinds().insert(kind),
            final(self).dirs() == old(self).dirs(),
            final(self).comps() == old(self).comps(),
            final(self).owners() == old(self).owners(),
            final(self).slots() == old(self).slots(),
            final(self).entities == old(self).entities,
            forall|k: usize|
                k != kind && old(self).kinds().contains(k) ==> final(self).col(k) == old(self).col(k),
            !old(self).kinds().contains(kind) ==> link_entries(final(self).col(kind).rows)
                =~= Map::empty(),
            forall|k: usize| #![trigger final(self).row_next(k)] #![trigger final(self).rows_packed(k)]  same_row_alloc(*old(self), *final(self), k),
    {
        match kinds_get(&self.kinds, kind) {
            Some(i) => i,
            None => {
                let i = self.cols.len();
                self.cols.push(Column { kind, rows: link_new(), vals: Vec::new() });
                kinds_insert(&mut self.kinds, kind, i);
                proof {
                    let o = *old(self);
                    assert forall|k: usize| k != kind && o.kinds().contains(k) implies self.col(k)
                        == o.col(k) by {}
                    assert forall|key: CompKey| self.has(key) == o.has(key) by {}
                    assert(self.comps() =~= o.comps());
                    assert(self.owners() =~= o.owners());
                    assert(self.slots() =~= o.slots());
                    assert(self.kinds() =~= o.kinds().insert(kind));
                    assert forall|i2: int| 0 <= i2 < self.cols@.len() implies column_wf(
                        #[trigger] self.cols@[i2],
                    ) by {
                        if i2 < i {
                            assert(self.cols@[i2] == o.cols@[i2]);
                        }
                    }
                    assert forall|key: CompKey| #[trigger] self.has(key) implies {
                        let (e, d) = self.rows(key.0)[key.1];
                        &&& self.dirs().contains_key(e)
                        &&& self.dirs()[e].contains_key(d)
                        &&& self.dirs()[e][d] == key
                    } by {
                        assert(o.has(key));
                    }
                    assert forall|e: EntityKey, d: usize|
                        self.dirs().contains_key(e) && #[trigger] self.dirs()[e].contains_key(
                            d,
                        ) implies {
                        let key = self.dirs()[e][d];
                        &&& self.has(key)
                        &&& self.rows(key.0)[key.1] == (e, d)
                    } by {
                        assert(o.dirs()[e].contains_key(d));
                        let key = self.dirs()[e][d];
                        assert(o.has(key));
                        assert(self.has(key));
                    }
                }
                i
            },
        }
    }
}

/// `a` and `b` hand out the same rows for `kind`.
pub open spec fn same_row_alloc<C: Component>(a: ECS<C>, b: ECS<C>, kind: usize) -> bool {
    a.row_next(kind) == b.row_next(kind) && a.rows_packed(kind) == b.rows_packed(kind)
}

/// `a` and `b` hand out the same directory slots for `e`.
pub open spec fn same_slot_alloc<C: Component>(a: ECS<C>, b: ECS<C>, e: EntityKey) -> bool {
    a.slot_next(e) == b.slot_next(e) && a.slots_packed(e) == b.slots_packed(e)
}

/// `a` and `b` hand out the same entity keys.
pub open spec fn same_entity_alloc<C: Component>(a: ECS<C>, b: ECS<C>) -> bool {
    a.entity_next() == b.entity_next() && a.entities_packed() == b.entities_packed()
}

/// A store with nothing freed and nothing used: every allocation starts at 0.
pub open spec fn fresh_alloc<C: Component>(a: ECS<C>) -> bool {
    &&& a.entity_next() == 0
    &&& a.entities_packed()
    &&& forall|kind: usize|
        #![trigger a.row_next(kind)]
        #![trigger a.rows_packed(kind)]
        a.row_next(kind) == 0 && a.rows_packed(kind)
    &&& forall|e: EntityKey|
        #![trigger a.slot_next(e)]
        #![trigger a.slots_packed(e)]
        a.slot_next(e) == 0 && a.slots_packed(e)
}

/// The rows of the live components of `kind`.
pub open spec fn rows_of_kind<C>(comps: Map<CompKey, C>, kind: usize) -> Set<usize> {
    Set::new(|r: usize| comps.contains_key((kind, r)))
}

/// The slots of a directory that name components of `kind`.
pub open spec fn slots_of_kind(dir: Map<usize, CompKey>, kind: usize) -> Set<usize> {
    Set::new(|s: usize| dir.contains_key(s) && dir[s].0 == kind)
}

/// The keys of kinds other than `kind`.
pub open spec fn other_kinds(kind: usize) -> Set<CompKey> {
    Set::new(|k: CompKey| k.0 != kind)
}

/// A directory without its entries of `kind`.
pub open spec fn without_kind(dir: Map<usize, CompKey>, kind: usize) -> Map<usize, CompKey> {
    dir.restrict(Set::new(|s: usize| dir.contains_key(s) && dir[s].0 != kind))
}

/// `vs` lists the values of the components of `kind` that `e` owns in `s`,
/// in ascending order of their directory slots.
pub open spec fn scoped_values<C: Component>(s: ECS<C>, e: EntityKey, kind: usize, vs: Seq<C>) -> bool {
    exists|slots: Seq<usize>| #[trigger]
        ascending_keys(slots, slots_of_kind(s.dirs()[e], kind)) && vs.len() == slots.len()
            && forall|j: int| 0 <= j < slots.len() ==> vs[j] == s.comps()[s.dirs()[e][slots[j]]]
}

/// The keys whose owner is not `e`.
pub open spec fn owned_by_others(owners: Map<CompKey, EntityKey>, e: EntityKey) -> Set<CompKey> {
    Set::new(|k: CompKey| owners.contains_key(k) && owners[k] != e)
}

/// Stores `v` at index `row`, padding with `None` up to it.
fn put_value<C>(vals: &mut Vec<Option<C>>, row: usize, v: C)
    ensures
        final(vals)@.len() == if row < old(vals)@.len() {
            old(vals)@.len() as int
        } else {
            row + 1
        },
        final(vals)@[row as int] == Some(v),
        forall|j: int| 0 <= j < old(vals)@.len() && j != row ==> final(vals)@[j] == old(vals)@[j],
        forall|j: int|
            old(vals)@.len() <= j < final(vals)@.len() && j != row ==> final(vals)@[j] is None,
{
    while vals.len() < row
        invariant
            forall|j: int| 0 <= j < old(vals)@.len() ==> vals@[j] == old(vals)@[j],
            forall|j: int| old(vals)@.len() <= j < vals@.len() ==> vals@[j] is None,
            old(vals)@.len() <= vals@.len(),
            vals@.len() <= row || vals@.len() == old(vals)@.len(),
        decreases row - vals@.len(),
    {
        vals.push(None);
    }
    if vals.len() == row {
        vals.push(Some(v));
    } else {
        vals[row] = Some(v);
    }
}

} // verus!
