//! The world: identity allocator, store directory and table directory
//! composed behind the three public operations spawn, delete and query.

use vstd::prelude::*;

use crate::bundle::Bundle;
use crate::entity::{Entities, EntityId};
use crate::query::{
    entities_linked, locks_acquired, locks_released, matches_table, row_output_ok,
    shape_available, shape_held, tables_linked, EntityQuery, FullQuery, Query, QueryTerm,
};
use crate::store::{lemma_store_id_value_injective, lemma_store_id_value_injective_contra, Stores};
use crate::tables::{Table, TableId, Tables};

verus! {

/// The row of `tab` occupied by `id` (unique in a well-formed table).
pub open spec fn row_of(tab: Table, id: EntityId) -> int {
    choose|r: int| 0 <= r < tab.row_ids().len() && tab.row_ids()[r] == id
}

/// Where a table holds a row for `id`, `row_of` names such a row.
pub proof fn lemma_row_of(tab: Table, id: EntityId)
    requires
        tab.row_ids().contains(id),
    ensures
        0 <= row_of(tab, id) < tab.row_ids().len(),
        tab.row_ids()[row_of(tab, id)] == id,
{
    assert(exists|r: int| 0 <= r < tab.row_ids().len() && tab.row_ids()[r] == id);
}

/// In a well-formed table, `row_of` is the only row holding `id`.
pub proof fn lemma_row_of_unique(tab: Table, id: EntityId, r: int)
    requires
        tab.wf(),
        0 <= r < tab.row_ids().len(),
        tab.row_ids()[r] == id,
    ensures
        row_of(tab, id) == r,
{
    assert(tab.row_ids().contains(id));
    lemma_row_of(tab, id);
    let r2 = row_of(tab, id);
    if r2 != r {
        if r < r2 {
            assert(tab.row_ids()[r] != tab.row_ids()[r2]);
        } else {
            assert(tab.row_ids()[r2] != tab.row_ids()[r]);
        }
    }
}

/// Whether the store at position `s` backs one of `tab`'s columns.
pub open spec fn is_column_store(tab: Table, s: int) -> bool {
    exists|c: int| 0 <= c < tab.column_ids().len() && (#[trigger] tab.column_ids()[c]).value() == s
}

/// How one column store changes when row `row` is destructed and the slots
/// after it shift one position toward it.
pub open spec fn column_compacted(before: crate::store::Store, after: crate::store::Store, row: int) -> bool {
    &&& after.wf()
    &&& after.item_type() == before.item_type()
    &&& after.capacity() == before.capacity()
    &&& forall|k: int| 0 <= k < row ==> after.slot(k) == before.slot(k)
    &&& forall|k: int| row <= k < before.capacity() - 1 ==> after.slot(k) == before.slot(k + 1)
}

/// How one column store changes when one value's bytes are written to slot
/// `row`, growing the store first where needed.
pub open spec fn column_written(
    before: crate::store::Store,
    after: crate::store::Store,
    row: int,
    bytes: Seq<u8>,
) -> bool {
    &&& after.wf()
    &&& after.item_type() == before.item_type()
    &&& after.capacity() >= row + 1
    &&& after.capacity() >= before.capacity()
    &&& after.slot(row) == bytes
    &&& forall|k: int| 0 <= k < before.capacity() && k != row ==> after.slot(k) == before.slot(k)
}

/// Composes the identity allocator, the store directory and the table
/// directory, and exposes spawn, delete and query.
pub struct World {
    entities: Entities,
    stores: Stores,
    tables: Tables,
}

impl World {
    /// The identity allocator's state.
    pub closed spec fn spec_entities(self) -> Entities {
        self.entities
    }

    /// The store directory's state.
    pub closed spec fn spec_stores(self) -> Stores {
        self.stores
    }

    /// The table directory's state.
    pub closed spec fn spec_tables(self) -> Tables {
        self.tables
    }

    /// Every row's entity is mapped back to exactly that table.
    pub open spec fn rows_mapped(self) -> bool {
        forall|t: int, r: int|
            #![trigger self.spec_tables().table_seq()[t].row_ids()[r]]
            0 <= t < self.spec_tables().table_seq().len() && 0 <= r
                < self.spec_tables().table_seq()[t].row_ids().len() ==> {
                let id = self.spec_tables().table_seq()[t].row_ids()[r];
                &&& self.spec_entities().table_map().contains_key(id)
                &&& self.spec_entities().table_map()[id].value() == t
            }
    }

    /// Every column store belongs to exactly one column of one table.
    pub open spec fn columns_owned(self) -> bool {
        forall|t1: int, c1: int, t2: int, c2: int|
            #![trigger self.spec_tables().table_seq()[t1].column_ids()[c1], self.spec_tables().table_seq()[t2].column_ids()[c2]]
            0 <= t1 < self.spec_tables().table_seq().len() && 0 <= c1 < self.spec_tables().table_seq()[t1].column_ids().len()
                && 0 <= t2 < self.spec_tables().table_seq().len() && 0 <= c2
                < self.spec_tables().table_seq()[t2].column_ids().len() && (t1 != t2 || c1 != c2)
                ==> self.spec_tables().table_seq()[t1].column_ids()[c1]
                != self.spec_tables().table_seq()[t2].column_ids()[c2]
    }

    /// No table has more rows than identities were ever issued.
    pub open spec fn rows_bounded(self) -> bool {
        forall|t: int|
            0 <= t < self.spec_tables().table_seq().len()
                ==> (#[trigger] self.spec_tables().table_seq()[t]).row_ids().len()
                <= self.spec_entities().next_value()
    }

    /// The world invariant: each part is well-formed, every mapped entity has
    /// its row, every row's entity is mapped, every column has a store of the
    /// right type at least as long as the row index, and no store is shared
    /// between columns.
    pub open spec fn wf(self) -> bool {
        &&& self.spec_entities().wf()
        &&& self.spec_stores().wf()
        &&& self.spec_tables().wf()
        &&& entities_linked(self.spec_entities(), self.spec_tables())
        &&& tables_linked(self.spec_tables(), self.spec_stores())
        &&& self.rows_mapped()
        &&& self.columns_owned()
        &&& self.rows_bounded()
    }

    /// Whether `id` names a live entity.
    pub open spec fn live(self, id: EntityId) -> bool {
        self.spec_entities().table_map().contains_key(id)
    }

    /// The bytes of `id`'s component of the type with identity `t`: the slot
    /// of `id`'s row in that type's column of `id`'s table. Nothing where the
    /// entity is not live or its table has no such column.
    pub open spec fn entity_value(self, id: EntityId, t: u64) -> Option<Seq<u8>> {
        if self.live(id) {
            let tv = self.spec_entities().table_map()[id].value() as int;
            let tab = self.spec_tables().table_seq()[tv];
            if tab.has_type(t) {
                Some(
                    self.spec_stores().store_seq()[tab.column_ids()[tab.col_of(t)].value() as int].slot(
                        row_of(tab, id),
                    ),
                )
            } else {
                None
            }
        } else {
            None
        }
    }

    /// The store directory, for driving queries.
    pub fn stores(&self) -> (r: &Stores)
        ensures
            *r == self.spec_stores(),
    {
        &self.stores
    }

    /// The table directory, for driving queries.
    pub fn tables(&self) -> (r: &Tables)
        ensures
            *r == self.spec_tables(),
    {
        &self.tables
    }

    /// The identity allocator.
    pub fn entities(&self) -> (r: &Entities)
        ensures
            *r == self.spec_entities(),
    {
        &self.entities
    }

    /// Construct a query over every qualifying table, taking the shape's
    /// guards for its lifetime. Drive it with `FullQuery::next` against this
    /// world's directories, and give it back with `release_query`.
    pub fn query(&mut self, shape: &Query) -> (r: FullQuery)
        requires
            old(self).wf(),
            shape.wf(),
            shape_available(old(self).spec_stores(), shape.term_seq()),
        ensures
            final(self).wf(),
            r.wf(),
            r.term_seq() == shape.term_seq(),
            r.table_cursor() == 0,
            r.row_cursor() == 0,
            locks_acquired(old(self).spec_stores(), final(self).spec_stores(), shape.term_seq()),
            shape_held(final(self).spec_stores(), shape.term_seq()),
            final(self).spec_tables() == old(self).spec_tables(),
            final(self).spec_entities() == old(self).spec_entities(),
            forall|id: EntityId, t: u64|
                final(self).entity_value(id, t) == old(self).entity_value(id, t),
    {
        let r = FullQuery::new(&mut self.stores, shape);
        proof {
            self.lemma_same_but_locks(*old(self));
        }
        r
    }

    /// Construct the identity-scoped query: the same filtering, against only
    /// the table holding `entity_id`, yielding at most one row.
    pub fn query_entity(&mut self, shape: &Query, entity_id: EntityId) -> (r: EntityQuery)
        requires
            old(self).wf(),
            shape.wf(),
            shape_available(old(self).spec_stores(), shape.term_seq()),
        ensures
            final(self).wf(),
            r.wf(),
            r.term_seq() == shape.term_seq(),
            r.target_ok(final(self).spec_tables()),
            locks_acquired(old(self).spec_stores(), final(self).spec_stores(), shape.term_seq()),
            shape_held(final(self).spec_stores(), shape.term_seq()),
            final(self).spec_tables() == old(self).spec_tables(),
            final(self).spec_entities() == old(self).spec_entities(),
            forall|id: EntityId, t: u64|
                final(self).entity_value(id, t) == old(self).entity_value(id, t),
            ({
                let e = old(self).spec_entities();
                if old(self).live(entity_id) && matches_table(
                    old(self).spec_tables().table_seq()[e.table_map()[entity_id].value() as int],
                    shape.term_seq(),
                ) {
                    {
                        &&& r.target_spec() matches Some(pos)
                        &&& r.target_spec()->Some_0.0 == e.table_map()[entity_id].value()
                        &&& old(self).spec_tables().table_seq()[r.target_spec()->Some_0.0].row_ids()[r.target_spec()->Some_0.1]
                            == entity_id
                    }
                } else {
                    r.target_spec() is None
                }
            }),
    {
        let r = EntityQuery::new(&mut self.stores, &self.tables, &self.entities, entity_id, shape);
        proof {
            self.lemma_same_but_locks(*old(self));
        }
        r
    }

    /// Give a query's guards back, exactly once.
    pub fn release_query(&mut self, q: FullQuery)
        requires
            old(self).wf(),
            q.wf(),
            shape_held(old(self).spec_stores(), q.term_seq()),
        ensures
            final(self).wf(),
            locks_released(old(self).spec_stores(), final(self).spec_stores(), q.term_seq()),
            final(self).spec_tables() == old(self).spec_tables(),
            final(self).spec_entities() == old(self).spec_entities(),
            forall|id: EntityId, t: u64|
                final(self).entity_value(id, t) == old(self).entity_value(id, t),
    {
        q.release(&mut self.stores);
        proof {
            self.lemma_same_but_locks(*old(self));
        }
    }

    /// Give an identity-scoped query's guards back, exactly once.
    pub fn release_entity_query(&mut self, q: EntityQuery)
        requires
            old(self).wf(),
            q.wf(),
            shape_held(old(self).spec_stores(), q.term_seq()),
        ensures
            final(self).wf(),
            locks_released(old(self).spec_stores(), final(self).spec_stores(), q.term_seq()),
            final(self).spec_tables() == old(self).spec_tables(),
            final(self).spec_entities() == old(self).spec_entities(),
            forall|id: EntityId, t: u64|
                final(self).entity_value(id, t) == old(self).entity_value(id, t),
    {
        q.release(&mut self.stores);
        proof {
            self.lemma_same_but_locks(*old(self));
        }
    }

    /// Find the table keyed by the bundle's exact ordered type list, or
    /// create it together with one fresh, empty column store per component
    /// type (and an access guard for each type that has none yet).
    fn ensure_table(&mut self, b: &Bundle) -> (tid: TableId)
        requires
            old(self).wf(),
            b.wf(),
        ensures
            final(self).wf(),
            final(self).spec_entities() == old(self).spec_entities(),
            tid.value() < final(self).spec_tables().table_seq().len(),
            final(self).spec_tables().table_seq()[tid.value() as int].type_seq() == b.type_seq(),
            final(self).spec_tables().table_seq().len() >= old(self).spec_tables().table_seq().len(),
            final(self).spec_tables().table_seq().len() <= old(self).spec_tables().table_seq().len()
                + 1,
            tid.value() <= old(self).spec_tables().table_seq().len(),
            tid.value() == old(self).spec_tables().table_seq().len() ==> final(self).spec_tables().table_seq().len() == old(self).spec_tables().table_seq().len() + 1
                && final(self).spec_tables().table_seq()[tid.value() as int].row_ids()
                == Seq::<EntityId>::empty(),
            tid.value() < old(self).spec_tables().table_seq().len() ==> final(self).spec_tables().table_seq().len() == old(self).spec_tables().table_seq().len()
                && old(self).spec_tables().table_seq()[tid.value() as int].type_seq()
                == b.type_seq(),
            forall|t: int|
                0 <= t < tid.value() && t < old(self).spec_tables().table_seq().len()
                    ==> (#[trigger] old(self).spec_tables().table_seq()[t]).type_seq()
                    != b.type_seq(),
            forall|t: int|
                0 <= t < old(self).spec_tables().table_seq().len()
                    ==> #[trigger] final(self).spec_tables().table_seq()[t] == old(
                    self,
                ).spec_tables().table_seq()[t],
            final(self).spec_stores().store_seq().len() >= old(self).spec_stores().store_seq().len(),
            forall|s: int|
                0 <= s < old(self).spec_stores().store_seq().len()
                    ==> #[trigger] final(self).spec_stores().store_seq()[s] == old(
                    self,
                ).spec_stores().store_seq()[s],
            forall|t: u64|
                #[trigger] old(self).spec_stores().lock_map().contains_key(t) ==> final(self).spec_stores().lock_map().contains_key(t) && final(self).spec_stores().lock_map()[t]
                    == old(self).spec_stores().lock_map()[t],
            forall|t: u64|
                #[trigger] final(self).spec_stores().lock_map().contains_key(t) && !old(
                    self,
                ).spec_stores().lock_map().contains_key(t) ==> final(self).spec_stores().lock_map()[t].readers() == 0 && !final(self).spec_stores().lock_map()[t].is_writer(),
            forall|id: EntityId, t: u64|
                final(self).entity_value(id, t) == old(self).entity_value(id, t),
            forall|id: EntityId| final(self).live(id) == old(self).live(id),
    {
        let found = self.tables.with_type(b.types());
        if let Some(tid) = found {
            return tid;
        }
        let tid = self.tables.create();
        let ghost w0 = *old(self);
        let ghost tv = tid.value() as int;
        let ghost s0 = w0.spec_stores().store_seq().len() as int;
        let n = b.len();
        for i in 0..n
            invariant
                w0 == *old(self),
                w0.wf(),
                b.wf(),
                n == b.type_seq().len(),
                self.entities == w0.spec_entities(),
                self.tables.wf(),
                tv == tid.value() as int,
                tv == w0.spec_tables().table_seq().len() as int,
                s0 == w0.spec_stores().store_seq().len() as int,
                self.tables.table_seq().len() == tv + 1,
                forall|t: int|
                    0 <= t < tv ==> #[trigger] self.tables.table_seq()[t]
                        == w0.spec_tables().table_seq()[t],
                self.tables.table_seq()[tv].type_seq() == b.type_seq().subrange(0, i as int),
                self.tables.table_seq()[tv].column_ids().len() == i as int,
                self.tables.table_seq()[tv].row_ids() == Seq::<EntityId>::empty(),
                forall|c: int|
                    0 <= c < i as int ==> (#[trigger] self.tables.table_seq()[tv].column_ids()[c]).value()
                        == s0 + c,
                self.stores.wf(),
                self.stores.store_seq().len() == s0 + i as int,
                forall|s: int|
                    0 <= s < s0 ==> #[trigger] self.stores.store_seq()[s]
                        == w0.spec_stores().store_seq()[s],
                forall|c: int|
                    0 <= c < i as int ==> (#[trigger] self.stores.store_seq()[s0 + c]).item_type()
                        == b.type_seq()[c] && self.stores.store_seq()[s0 + c].capacity() == 0,
                forall|t: u64|
                    #[trigger] w0.spec_stores().lock_map().contains_key(t)
                        ==> self.stores.lock_map().contains_key(t) && self.stores.lock_map()[t]
                        == w0.spec_stores().lock_map()[t],
                forall|t: u64|
                    #[trigger] self.stores.lock_map().contains_key(t)
                        && !w0.spec_stores().lock_map().contains_key(t)
                        ==> self.stores.lock_map()[t].readers() == 0
                        && !self.stores.lock_map()[t].is_writer(),
        {
            let typ = b.type_at(i);
            let ghost sp = self.stores;
            let sid = self.stores.create(typ);
            proof {
                assert forall|c: int|
                    0 <= c < i as int + 1 implies ((#[trigger] self.stores.store_seq()[s0 + c]).item_type()
                    == b.type_seq()[c] && self.stores.store_seq()[s0 + c].capacity() == 0) by {
                    if c < i as int {
                        assert(self.stores.store_seq()[s0 + c] == sp.store_seq()[s0 + c]);
                    } else {
                        assert(self.stores.store_seq()[s0 + c] == self.stores.store_seq().last());
                    }
                }
                assert forall|s: int|
                    0 <= s < s0 implies #[trigger] self.stores.store_seq()[s]
                    == w0.spec_stores().store_seq()[s] by {
                    assert(self.stores.store_seq()[s] == sp.store_seq()[s]);
                }
                assert(!self.tables.table_seq()[tv].has_type(typ.id)) by {
                    if self.tables.table_seq()[tv].has_type(typ.id) {
                        let c = choose|c: int|
                            0 <= c < self.tables.table_seq()[tv].type_seq().len() && (
                            #[trigger] self.tables.table_seq()[tv].type_seq()[c]).id == typ.id;
                        assert(self.tables.table_seq()[tv].type_seq()[c] == b.type_seq()[c]);
                        assert(b.type_seq()[c].id != b.type_seq()[i as int].id);
                    }
                }
            }
            let tref = self.tables.get_mut(tid);
            tref.add_column(sid, typ);
            proof {
                assert(self.tables.table_seq()[tv].type_seq() =~= b.type_seq().subrange(
                    0,
                    i as int + 1,
                ));
            }
        }
        proof {
            assert(self.tables.table_seq()[tv].type_seq() =~= b.type_seq());
            self.lemma_grow_restores(w0, tv, s0);
        }
        tid
    }

    /// After a fresh table with fresh column stores is appended, the world
    /// invariant holds again and every entity keeps its values.
    proof fn lemma_grow_restores(self, w0: World, tv: int, s0: int)
        requires
            w0.wf(),
            self.spec_entities() == w0.spec_entities(),
            self.spec_tables().wf(),
            self.spec_stores().wf(),
            tv == w0.spec_tables().table_seq().len(),
            self.spec_tables().table_seq().len() == tv + 1,
            forall|t: int|
                0 <= t < tv ==> #[trigger] self.spec_tables().table_seq()[t]
                    == w0.spec_tables().table_seq()[t],
            self.spec_tables().table_seq()[tv].row_ids() == Seq::<EntityId>::empty(),
            s0 == w0.spec_stores().store_seq().len(),
            self.spec_stores().store_seq().len() >= s0,
            forall|s: int|
                0 <= s < s0 ==> #[trigger] self.spec_stores().store_seq()[s]
                    == w0.spec_stores().store_seq()[s],
            forall|c: int|
                0 <= c < self.spec_tables().table_seq()[tv].column_ids().len() ==> (
                #[trigger] self.spec_tables().table_seq()[tv].column_ids()[c]).value() == s0 + c
                    && s0 + c < self.spec_stores().store_seq().len()
                    && self.spec_stores().store_seq()[s0 + c].item_type()
                    == self.spec_tables().table_seq()[tv].type_seq()[c],
        ensures
            self.wf(),
            forall|id: EntityId, t: u64| self.entity_value(id, t) == w0.entity_value(id, t),
            forall|id: EntityId| self.live(id) == w0.live(id),
    {
        let tab1 = self.spec_tables().table_seq()[tv];
        assert(entities_linked(self.spec_entities(), self.spec_tables())) by {
            assert forall|id: EntityId| #[trigger] self.spec_entities().table_map().contains_key(
                id,
            ) implies {
                let tv2 = self.spec_entities().table_map()[id].value();
                &&& tv2 < self.spec_tables().table_seq().len()
                &&& self.spec_tables().table_seq()[tv2 as int].row_ids().contains(id)
            } by {
                let tv2 = w0.spec_entities().table_map()[id].value() as int;
                assert(tv2 < tv);
                assert(self.spec_tables().table_seq()[tv2] == w0.spec_tables().table_seq()[tv2]);
            }
        }
        assert(tables_linked(self.spec_tables(), self.spec_stores())) by {
            assert forall|t: int, c: int|
                #![trigger self.spec_tables().table_seq()[t].column_ids()[c]]
                0 <= t < self.spec_tables().table_seq().len() && 0 <= c
                    < self.spec_tables().table_seq()[t].column_ids().len() implies {
                let tab = self.spec_tables().table_seq()[t];
                let sv = tab.column_ids()[c].value();
                &&& sv < self.spec_stores().store_seq().len()
                &&& self.spec_stores().store_seq()[sv as int].item_type() == tab.type_seq()[c]
                &&& self.spec_stores().store_seq()[sv as int].capacity() >= tab.row_ids().len()
            } by {
                if t < tv {
                    assert(self.spec_tables().table_seq()[t] == w0.spec_tables().table_seq()[t]);
                    assert(w0.spec_tables().table_seq()[t].column_ids()[c]
                        == self.spec_tables().table_seq()[t].column_ids()[c]);
                    let sv = self.spec_tables().table_seq()[t].column_ids()[c].value() as int;
                    assert(sv < s0);
                    assert(self.spec_stores().store_seq()[sv]
                        == w0.spec_stores().store_seq()[sv]);
                }
            }
        }
        assert(self.rows_mapped()) by {
            assert forall|t: int, r: int|
                #![trigger self.spec_tables().table_seq()[t].row_ids()[r]]
                0 <= t < self.spec_tables().table_seq().len() && 0 <= r
                    < self.spec_tables().table_seq()[t].row_ids().len() implies {
                let id = self.spec_tables().table_seq()[t].row_ids()[r];
                &&& self.spec_entities().table_map().contains_key(id)
                &&& self.spec_entities().table_map()[id].value() == t
            } by {
                assert(t != tv);
                assert(self.spec_tables().table_seq()[t] == w0.spec_tables().table_seq()[t]);
                assert(w0.spec_tables().table_seq()[t].row_ids()[r]
                    == self.spec_tables().table_seq()[t].row_ids()[r]);
            }
        }
        assert(self.columns_owned()) by {
            assert forall|t1: int, c1: int, t2: int, c2: int|
                #![trigger self.spec_tables().table_seq()[t1].column_ids()[c1], self.spec_tables().table_seq()[t2].column_ids()[c2]]
                0 <= t1 < self.spec_tables().table_seq().len() && 0 <= c1
                    < self.spec_tables().table_seq()[t1].column_ids().len() && 0 <= t2
                    < self.spec_tables().table_seq().len() && 0 <= c2
                    < self.spec_tables().table_seq()[t2].column_ids().len() && (t1 != t2 || c1
                    != c2) implies self.spec_tables().table_seq()[t1].column_ids()[c1]
                != self.spec_tables().table_seq()[t2].column_ids()[c2] by {
                if t1 < tv && t2 < tv {
                    assert(self.spec_tables().table_seq()[t1]
                        == w0.spec_tables().table_seq()[t1]);
                    assert(self.spec_tables().table_seq()[t2]
                        == w0.spec_tables().table_seq()[t2]);
                    assert(w0.spec_tables().table_seq()[t1].column_ids()[c1]
                        != w0.spec_tables().table_seq()[t2].column_ids()[c2]);
                } else if t1 == tv && t2 == tv {
                    assert(self.spec_tables().table_seq()[t1].column_ids()[c1].value() == s0 + c1);
                    assert(self.spec_tables().table_seq()[t2].column_ids()[c2].value() == s0 + c2);
                } else if t1 == tv {
                    assert(self.spec_tables().table_seq()[t2]
                        == w0.spec_tables().table_seq()[t2]);
                    assert(w0.spec_tables().table_seq()[t2].column_ids()[c2]
                        == self.spec_tables().table_seq()[t2].column_ids()[c2]);
                    assert(self.spec_tables().table_seq()[t2].column_ids()[c2].value() < s0);
                    assert(self.spec_tables().table_seq()[t1].column_ids()[c1].value() == s0 + c1);
                } else {
                    assert(self.spec_tables().table_seq()[t1]
                        == w0.spec_tables().table_seq()[t1]);
                    assert(w0.spec_tables().table_seq()[t1].column_ids()[c1]
                        == self.spec_tables().table_seq()[t1].column_ids()[c1]);
                    assert(self.spec_tables().table_seq()[t1].column_ids()[c1].value() < s0);
                    assert(self.spec_tables().table_seq()[t2].column_ids()[c2].value() == s0 + c2);
                }
            }
        }
        assert(self.rows_bounded()) by {
            assert forall|t: int|
                0 <= t < self.spec_tables().table_seq().len() implies (
            #[trigger] self.spec_tables().table_seq()[t]).row_ids().len()
                <= self.spec_entities().next_value() by {
                if t < tv {
                    assert(self.spec_tables().table_seq()[t]
                        == w0.spec_tables().table_seq()[t]);
                    assert(w0.spec_tables().table_seq()[t].row_ids().len()
                        <= w0.spec_entities().next_value());
                }
            }
        }
        assert forall|id: EntityId, t: u64| self.entity_value(id, t) == w0.entity_value(id, t) by {
            if w0.live(id) {
                let tv2 = w0.spec_entities().table_map()[id].value() as int;
                assert(tv2 < tv);
                assert(self.spec_tables().table_seq()[tv2] == w0.spec_tables().table_seq()[tv2]);
                let tab = w0.spec_tables().table_seq()[tv2];
                if tab.has_type(t) {
                    tab.lemma_col_of(t);
                    assert(w0.spec_tables().table_seq()[tv2].column_ids()[tab.col_of(t)]
                        == tab.column_ids()[tab.col_of(t)]);
                    let sv = tab.column_ids()[tab.col_of(t)].value() as int;
                    assert(sv < s0);
                    assert(self.spec_stores().store_seq()[sv]
                        == w0.spec_stores().store_seq()[sv]);
                }
            }
        }
    }

    /// Spawn one entity: find or create the table for the bundle's exact
    /// ordered type list, allocate a fresh identity, append a row, copy each
    /// component's bytes into its column at that row, and record the
    /// identity's location. Returns the fresh identity; every previously live
    /// entity keeps its identity, its liveness and all its component values.
    pub fn spawn(&mut self, b: Bundle) -> (r: EntityId)
        requires
            old(self).wf(),
            b.wf(),
            old(self).spec_entities().next_value() < usize::MAX,
        ensures
            final(self).wf(),
            r.value() == old(self).spec_entities().next_value(),
            final(self).spec_entities().next_value() == old(self).spec_entities().next_value() + 1,
            final(self).spec_entities().issued_ids() == old(self).spec_entities().issued_ids().push(
                r,
            ),
            !old(self).live(r),
            final(self).live(r),
            forall|i: int|
                0 <= i < b.type_seq().len() ==> final(self).entity_value(
                    r,
                    (#[trigger] b.type_seq()[i]).id,
                ) == Some(b.value_at(i)),
            forall|t: u64| !b.has_type(t) ==> final(self).entity_value(r, t) is None,
            forall|id: EntityId| id != r ==> final(self).live(id) == old(self).live(id),
            forall|id: EntityId, t: u64|
                id != r ==> final(self).entity_value(id, t) == old(self).entity_value(id, t),
            final(self).spec_tables().table_seq()[final(self).spec_entities().table_map()[r].value() as int].type_seq()
                == b.type_seq(),
            forall|t: u64|
                #[trigger] old(self).spec_stores().lock_map().contains_key(t) ==> final(self).spec_stores().lock_map().contains_key(t) && final(self).spec_stores().lock_map()[t]
                    == old(self).spec_stores().lock_map()[t],
            forall|t: u64|
                #[trigger] final(self).spec_stores().lock_map().contains_key(t) && !old(self).spec_stores().lock_map().contains_key(t) ==> final(self).spec_stores().lock_map()[t].readers()
                    == 0 && !final(self).spec_stores().lock_map()[t].is_writer(),
            final(self).spec_tables().table_seq().len() >= old(self).spec_tables().table_seq().len(),
            final(self).spec_tables().table_seq().len() <= old(self).spec_tables().table_seq().len()
                + 1,
            ({
                let tv = final(self).spec_entities().table_map()[r].value() as int;
                &&& 0 <= tv < final(self).spec_tables().table_seq().len()
                &&& forall|t: int|
                    0 <= t < tv && t < old(self).spec_tables().table_seq().len()
                        ==> (#[trigger] old(self).spec_tables().table_seq()[t]).type_seq()
                        != b.type_seq()
                &&& (tv < old(self).spec_tables().table_seq().len() ==> old(
                    self,
                ).spec_tables().table_seq()[tv].type_seq() == b.type_seq() && final(self).spec_tables().table_seq().len() == old(self).spec_tables().table_seq().len())
                &&& forall|t: int|
                    0 <= t < old(self).spec_tables().table_seq().len() && t != tv
                        ==> #[trigger] final(self).spec_tables().table_seq()[t] == old(
                        self,
                    ).spec_tables().table_seq()[t]
                &&& (tv < old(self).spec_tables().table_seq().len() ==> {
                    &&& final(self).spec_tables().table_seq()[tv].row_ids() == old(
                        self,
                    ).spec_tables().table_seq()[tv].row_ids().push(r)
                    &&& final(self).spec_tables().table_seq()[tv].type_seq() == old(
                        self,
                    ).spec_tables().table_seq()[tv].type_seq()
                    &&& final(self).spec_tables().table_seq()[tv].column_ids() == old(
                        self,
                    ).spec_tables().table_seq()[tv].column_ids()
                })
                &&& (tv >= old(self).spec_tables().table_seq().len() ==> {
                    &&& tv == old(self).spec_tables().table_seq().len()
                    &&& final(self).spec_tables().table_seq().len() == old(
                        self,
                    ).spec_tables().table_seq().len() + 1
                    &&& final(self).spec_tables().table_seq()[tv].row_ids().len() == 1
                    &&& final(self).spec_tables().table_seq()[tv].row_ids()[0] == r
                })
            }),
    {
        let tid = self.ensure_table(&b);
        let ghost w1 = *self;
        let ghost tv = tid.value() as int;
        let ghost tab1 = w1.spec_tables().table_seq()[tv];
        let id = self.entities.allocate();
        self.entities.set_table_id(id, tid);
        proof {
            assert(!tab1.row_ids().contains(id)) by {
                if tab1.row_ids().contains(id) {
                    let rr = choose|rr: int| 0 <= rr < tab1.row_ids().len() && tab1.row_ids()[rr] == id;
                    assert(w1.spec_tables().table_seq()[tv].row_ids()[rr] == id);
                    assert(w1.spec_entities().table_map().contains_key(id));
                    w1.spec_entities().lemma_mapped_below_next();
                }
            }
            assert(tab1.row_ids().len() <= w1.spec_entities().next_value());
        }
        let row = {
            let tref = self.tables.get_mut(tid);
            tref.push(id)
        };
        let ghost w3 = *self;
        let ghost tab3 = w3.spec_tables().table_seq()[tv];
        let n = b.len();
        for i in 0..n
            invariant
                w1.wf(),
                b.wf(),
                n == b.type_seq().len(),
                tv == tid.value() as int,
                0 <= tv < w1.spec_tables().table_seq().len(),
                tab1 == w1.spec_tables().table_seq()[tv],
                tab1.type_seq() == b.type_seq(),
                row as int == tab1.row_ids().len(),
                (row as int) < usize::MAX as int,
                tab3 == w3.spec_tables().table_seq()[tv],
                tab3.type_seq() == tab1.type_seq(),
                tab3.column_ids() == tab1.column_ids(),
                tab3.row_ids() == tab1.row_ids().push(id),
                self.entities == w3.spec_entities(),
                self.tables == w3.spec_tables(),
                w3.spec_tables().wf(),
                w3.spec_tables().table_seq().len() == w1.spec_tables().table_seq().len(),
                forall|t: int|
                    0 <= t < w1.spec_tables().table_seq().len() && t != tv
                        ==> #[trigger] w3.spec_tables().table_seq()[t]
                        == w1.spec_tables().table_seq()[t],
                self.stores.wf(),
                self.stores.store_seq().len() == w1.spec_stores().store_seq().len(),
                self.stores.lock_map() == w1.spec_stores().lock_map(),
                forall|s: int|
                    0 <= s < self.stores.store_seq().len() && !is_column_store(tab1, s)
                        ==> #[trigger] self.stores.store_seq()[s]
                        == w1.spec_stores().store_seq()[s],
                forall|c: int|
                    i as int <= c < tab1.column_ids().len()
                        ==> self.stores.store_seq()[(#[trigger] tab1.column_ids()[c]).value() as int]
                        == w1.spec_stores().store_seq()[tab1.column_ids()[c].value() as int],
                forall|c: int|
                    0 <= c < i as int ==> column_written(
                        w1.spec_stores().store_seq()[(#[trigger] tab1.column_ids()[c]).value() as int],
                        self.stores.store_seq()[tab1.column_ids()[c].value() as int],
                        row as int,
                        b.value_at(c),
                    ),
        {
            let typ = b.type_at(i);
            let cid_opt = {
                let tref = self.tables.get(tid);
                proof {
                    assert(tref.type_seq()[i as int].id == typ.id);
                    assert(tref.has_type(typ.id));
                }
                tref.column(&typ)
            };
            let cid = cid_opt.unwrap();
            proof {
                tab3.lemma_col_of(typ.id);
                assert(tab3.col_of(typ.id) == i as int) by {
                    if tab3.col_of(typ.id) != i as int {
                        let c2 = tab3.col_of(typ.id);
                        if c2 < i as int {
                            assert(tab3.type_seq()[c2].id != tab3.type_seq()[i as int].id);
                        } else {
                            assert(tab3.type_seq()[i as int].id != tab3.type_seq()[c2].id);
                        }
                    }
                }
                assert(cid == tab1.column_ids()[i as int]);
                assert(w1.spec_tables().table_seq()[tv].column_ids()[i as int]
                    == tab1.column_ids()[i as int]);
                assert(cid.value() < w1.spec_stores().store_seq().len());
                assert(self.stores.store_seq()[cid.value() as int]
                    == w1.spec_stores().store_seq()[cid.value() as int]);
                assert(self.stores.store_seq()[cid.value() as int].item_type()
                    == tab1.type_seq()[i as int]);
            }
            let ghost stores_pre = self.stores;
            proof {
                stores_pre.lemma_store_wf(cid.value() as int);
            }
            let st = self.stores.get_mut(cid);
            st.set_capacity(row + 1);
            st.write(row, b.value(i));
            proof {
                let sv = cid.value() as int;
                assert(column_written(
                    w1.spec_stores().store_seq()[sv],
                    self.stores.store_seq()[sv],
                    row as int,
                    b.value_at(i as int),
                ));
                assert forall|s: int|
                    0 <= s < self.stores.store_seq().len() && !is_column_store(tab1, s)
                        implies #[trigger] self.stores.store_seq()[s]
                    == w1.spec_stores().store_seq()[s] by {
                    assert(s != sv);
                    assert(self.stores.store_seq()[s] == stores_pre.store_seq()[s]);
                }
                assert forall|c: int|
                    i as int + 1 <= c < tab1.column_ids().len()
                        implies self.stores.store_seq()[(#[trigger] tab1.column_ids()[c]).value() as int]
                    == w1.spec_stores().store_seq()[tab1.column_ids()[c].value() as int] by {
                    assert(w1.spec_tables().table_seq()[tv].column_ids()[c]
                        != w1.spec_tables().table_seq()[tv].column_ids()[i as int]);
                    lemma_store_id_value_injective_contra(tab1.column_ids()[c], cid);
                    assert(self.stores.store_seq()[tab1.column_ids()[c].value() as int]
                        == stores_pre.store_seq()[tab1.column_ids()[c].value() as int]);
                }
                assert forall|c: int|
                    0 <= c < i as int + 1 implies column_written(
                    w1.spec_stores().store_seq()[(#[trigger] tab1.column_ids()[c]).value() as int],
                    self.stores.store_seq()[tab1.column_ids()[c].value() as int],
                    row as int,
                    b.value_at(c),
                ) by {
                    if c < i as int {
                        assert(w1.spec_tables().table_seq()[tv].column_ids()[c]
                            != w1.spec_tables().table_seq()[tv].column_ids()[i as int]);
                        lemma_store_id_value_injective_contra(tab1.column_ids()[c], cid);
                        assert(self.stores.store_seq()[tab1.column_ids()[c].value() as int]
                            == stores_pre.store_seq()[tab1.column_ids()[c].value() as int]);
                    }
                }
            }
        }
        proof {
            self.lemma_spawn_restores(w1, b, id, tid, row as int);
            assert forall|id2: EntityId, t: u64|
                id2 != id implies self.entity_value(id2, t) == old(self).entity_value(id2, t) by {
                assert(self.entity_value(id2, t) == w1.entity_value(id2, t));
            }
        }
        id
    }

    /// After a spawn's row append and component writes, the world invariant
    /// holds again, the new entity's values are the bundle's, and every other
    /// entity keeps its values.
    proof fn lemma_spawn_restores(self, w1: World, b: Bundle, id: EntityId, tid: TableId, row: int)
        requires
            w1.wf(),
            b.wf(),
            0 <= tid.value() < w1.spec_tables().table_seq().len(),
            w1.spec_tables().table_seq()[tid.value() as int].type_seq() == b.type_seq(),
            row == w1.spec_tables().table_seq()[tid.value() as int].row_ids().len(),
            !w1.spec_entities().table_map().contains_key(id),
            id.value() == w1.spec_entities().next_value(),
            self.spec_entities().wf(),
            self.spec_entities().table_map() == w1.spec_entities().table_map().insert(id, tid),
            self.spec_entities().next_value() == w1.spec_entities().next_value() + 1,
            self.spec_tables().wf(),
            self.spec_tables().table_seq().len() == w1.spec_tables().table_seq().len(),
            forall|t: int|
                0 <= t < w1.spec_tables().table_seq().len() && t != tid.value()
                    ==> #[trigger] self.spec_tables().table_seq()[t]
                    == w1.spec_tables().table_seq()[t],
            self.spec_tables().table_seq()[tid.value() as int].type_seq()
                == w1.spec_tables().table_seq()[tid.value() as int].type_seq(),
            self.spec_tables().table_seq()[tid.value() as int].column_ids()
                == w1.spec_tables().table_seq()[tid.value() as int].column_ids(),
            self.spec_tables().table_seq()[tid.value() as int].row_ids()
                == w1.spec_tables().table_seq()[tid.value() as int].row_ids().push(id),
            self.spec_stores().wf(),
            self.spec_stores().store_seq().len() == w1.spec_stores().store_seq().len(),
            forall|s: int|
                0 <= s < self.spec_stores().store_seq().len() && !is_column_store(
                    w1.spec_tables().table_seq()[tid.value() as int],
                    s,
                ) ==> #[trigger] self.spec_stores().store_seq()[s]
                    == w1.spec_stores().store_seq()[s],
            forall|c: int|
                0 <= c < w1.spec_tables().table_seq()[tid.value() as int].column_ids().len()
                    ==> column_written(
                    w1.spec_stores().store_seq()[(#[trigger] w1.spec_tables().table_seq()[tid.value() as int].column_ids()[c]).value() as int],
                    self.spec_stores().store_seq()[w1.spec_tables().table_seq()[tid.value() as int].column_ids()[c].value() as int],
                    row,
                    b.value_at(c),
                ),
        ensures
            self.wf(),
            self.live(id),
            forall|i: int|
                0 <= i < b.type_seq().len() ==> self.entity_value(
                    id,
                    (#[trigger] b.type_seq()[i]).id,
                ) == Some(b.value_at(i)),
            forall|t: u64| !b.has_type(t) ==> self.entity_value(id, t) is None,
            forall|id2: EntityId| id2 != id ==> self.live(id2) == w1.live(id2),
            forall|id2: EntityId, t: u64|
                id2 != id ==> self.entity_value(id2, t) == w1.entity_value(id2, t),
            self.spec_tables().table_seq()[self.spec_entities().table_map()[id].value() as int].type_seq()
                == b.type_seq(),
    {
        let tv = tid.value() as int;
        let tab1 = w1.spec_tables().table_seq()[tv];
        let tab3 = self.spec_tables().table_seq()[tv];
        let rows1 = tab1.row_ids();
        let rows3 = tab3.row_ids();
        assert(rows3 == rows1.push(id));
        w1.spec_entities().lemma_mapped_below_next();
        assert(entities_linked(self.spec_entities(), self.spec_tables())) by {
            assert forall|id2: EntityId| #[trigger] self.spec_entities().table_map().contains_key(
                id2,
            ) implies {
                let tv2 = self.spec_entities().table_map()[id2].value();
                &&& tv2 < self.spec_tables().table_seq().len()
                &&& self.spec_tables().table_seq()[tv2 as int].row_ids().contains(id2)
            } by {
                if id2 == id {
                    assert(rows3[row] == id);
                    assert(rows3.contains(id));
                } else {
                    assert(w1.spec_entities().table_map().contains_key(id2));
                    let tv2 = w1.spec_entities().table_map()[id2].value() as int;
                    assert(w1.spec_tables().table_seq()[tv2].row_ids().contains(id2));
                    if tv2 == tv {
                        let r0 = row_of(tab1, id2);
                        lemma_row_of(tab1, id2);
                        assert(rows3[r0] == id2);
                        assert(rows3.contains(id2));
                    } else {
                        assert(self.spec_tables().table_seq()[tv2]
                            == w1.spec_tables().table_seq()[tv2]);
                    }
                }
            }
        }
        assert(tables_linked(self.spec_tables(), self.spec_stores())) by {
            assert forall|t: int, c: int|
                #![trigger self.spec_tables().table_seq()[t].column_ids()[c]]
                0 <= t < self.spec_tables().table_seq().len() && 0 <= c
                    < self.spec_tables().table_seq()[t].column_ids().len() implies {
                let tab = self.spec_tables().table_seq()[t];
                let sv = tab.column_ids()[c].value();
                &&& sv < self.spec_stores().store_seq().len()
                &&& self.spec_stores().store_seq()[sv as int].item_type() == tab.type_seq()[c]
                &&& self.spec_stores().store_seq()[sv as int].capacity() >= tab.row_ids().len()
            } by {
                if t == tv {
                    assert(w1.spec_tables().table_seq()[tv].column_ids()[c]
                        == tab3.column_ids()[c]);
                    let sv = tab3.column_ids()[c].value() as int;
                    assert(column_written(
                        w1.spec_stores().store_seq()[sv],
                        self.spec_stores().store_seq()[sv],
                        row,
                        b.value_at(c),
                    ));
                } else {
                    let tab = self.spec_tables().table_seq()[t];
                    assert(tab == w1.spec_tables().table_seq()[t]);
                    assert(w1.spec_tables().table_seq()[t].column_ids()[c] == tab.column_ids()[c]);
                    let sv = tab.column_ids()[c].value() as int;
                    assert(!is_column_store(tab1, sv)) by {
                        if is_column_store(tab1, sv) {
                            let c2 = choose|c2: int|
                                0 <= c2 < tab1.column_ids().len() && (#[trigger] tab1.column_ids()[c2]).value()
                                    == sv;
                            assert(w1.spec_tables().table_seq()[tv].column_ids()[c2]
                                != w1.spec_tables().table_seq()[t].column_ids()[c]);
                            lemma_store_id_value_injective(
                                tab1.column_ids()[c2],
                                w1.spec_tables().table_seq()[t].column_ids()[c],
                            );
                        }
                    }
                    assert(self.spec_stores().store_seq()[sv]
                        == w1.spec_stores().store_seq()[sv]);
                }
            }
        }
        assert(self.rows_mapped()) by {
            assert forall|t: int, r: int|
                #![trigger self.spec_tables().table_seq()[t].row_ids()[r]]
                0 <= t < self.spec_tables().table_seq().len() && 0 <= r
                    < self.spec_tables().table_seq()[t].row_ids().len() implies {
                let id2 = self.spec_tables().table_seq()[t].row_ids()[r];
                &&& self.spec_entities().table_map().contains_key(id2)
                &&& self.spec_entities().table_map()[id2].value() == t
            } by {
                if t == tv && r == row {
                    assert(rows3[r] == id);
                } else {
                    let id2 = self.spec_tables().table_seq()[t].row_ids()[r];
                    if t == tv {
                        assert(rows3[r] == rows1[r]);
                        assert(w1.spec_tables().table_seq()[tv].row_ids()[r] == id2);
                    } else {
                        assert(self.spec_tables().table_seq()[t]
                            == w1.spec_tables().table_seq()[t]);
                        assert(w1.spec_tables().table_seq()[t].row_ids()[r] == id2);
                    }
                    assert(w1.spec_entities().table_map().contains_key(id2));
                    assert(id2 != id);
                }
            }
        }
        assert(self.columns_owned()) by {
            assert forall|t1: int, c1: int, t2: int, c2: int|
                #![trigger self.spec_tables().table_seq()[t1].column_ids()[c1], self.spec_tables().table_seq()[t2].column_ids()[c2]]
                0 <= t1 < self.spec_tables().table_seq().len() && 0 <= c1
                    < self.spec_tables().table_seq()[t1].column_ids().len() && 0 <= t2
                    < self.spec_tables().table_seq().len() && 0 <= c2
                    < self.spec_tables().table_seq()[t2].column_ids().len() && (t1 != t2 || c1
                    != c2) implies self.spec_tables().table_seq()[t1].column_ids()[c1]
                != self.spec_tables().table_seq()[t2].column_ids()[c2] by {
                assert(self.spec_tables().table_seq()[t1].column_ids()
                    == w1.spec_tables().table_seq()[t1].column_ids());
                assert(self.spec_tables().table_seq()[t2].column_ids()
                    == w1.spec_tables().table_seq()[t2].column_ids());
                assert(w1.spec_tables().table_seq()[t1].column_ids()[c1]
                    != w1.spec_tables().table_seq()[t2].column_ids()[c2]);
            }
        }
        assert(self.rows_bounded()) by {
            assert forall|t: int|
                0 <= t < self.spec_tables().table_seq().len() implies (
            #[trigger] self.spec_tables().table_seq()[t]).row_ids().len()
                <= self.spec_entities().next_value() by {
                assert(w1.spec_tables().table_seq()[t].row_ids().len()
                    <= w1.spec_entities().next_value());
                if t != tv {
                    assert(self.spec_tables().table_seq()[t]
                        == w1.spec_tables().table_seq()[t]);
                }
            }
        }

        // The new entity's values are the bundle's components.
        lemma_row_of_unique(tab3, id, row);
        assert forall|i: int| 0 <= i < b.type_seq().len() implies self.entity_value(
            id,
            (#[trigger] b.type_seq()[i]).id,
        ) == Some(b.value_at(i)) by {
            let t = b.type_seq()[i].id;
            assert(tab3.type_seq()[i].id == t);
            assert(tab3.has_type(t));
            tab3.lemma_col_of(t);
            assert(tab3.col_of(t) == i) by {
                let c2 = tab3.col_of(t);
                if c2 != i {
                    if c2 < i {
                        assert(tab3.type_seq()[c2].id != tab3.type_seq()[i].id);
                    } else {
                        assert(tab3.type_seq()[i].id != tab3.type_seq()[c2].id);
                    }
                }
            }
            assert(w1.spec_tables().table_seq()[tv].column_ids()[i] == tab3.column_ids()[i]);
            let sv = tab3.column_ids()[i].value() as int;
            assert(column_written(
                w1.spec_stores().store_seq()[sv],
                self.spec_stores().store_seq()[sv],
                row,
                b.value_at(i),
            ));
        }
        assert forall|t: u64| !b.has_type(t) implies self.entity_value(id, t) is None by {
            assert(!tab3.has_type(t)) by {
                if tab3.has_type(t) {
                    let c = choose|c: int|
                        0 <= c < tab3.type_seq().len() && (#[trigger] tab3.type_seq()[c]).id == t;
                    assert(b.type_seq()[c].id == t);
                }
            }
        }

        // Every other entity keeps its values.
        assert forall|id2: EntityId, t: u64|
            id2 != id implies self.entity_value(id2, t) == w1.entity_value(id2, t) by {
            assert(self.live(id2) == w1.live(id2));
            if w1.live(id2) {
                let tv2 = w1.spec_entities().table_map()[id2].value() as int;
                assert(self.spec_entities().table_map()[id2]
                    == w1.spec_entities().table_map()[id2]);
                if tv2 == tv {
                    assert(tab3.type_seq() == tab1.type_seq());
                    if tab1.has_type(t) {
                        tab1.lemma_col_of(t);
                        assert(tab3.col_of(t) == tab1.col_of(t)) by {
                            assert(tab3.type_seq() == tab1.type_seq());
                        }
                        assert(w1.spec_tables().table_seq()[tv].column_ids()[tab1.col_of(t)]
                            == tab1.column_ids()[tab1.col_of(t)]);
                        let sv = tab1.column_ids()[tab1.col_of(t)].value() as int;
                        assert(column_written(
                            w1.spec_stores().store_seq()[sv],
                            self.spec_stores().store_seq()[sv],
                            row,
                            b.value_at(tab1.col_of(t)),
                        ));
                        let r0 = row_of(tab1, id2);
                        lemma_row_of(tab1, id2);
                        assert(rows3[r0] == id2);
                        lemma_row_of_unique(tab3, id2, r0);
                        assert(r0 < row);
                        assert(w1.spec_stores().store_seq()[sv].capacity() >= rows1.len());
                        assert(self.spec_stores().store_seq()[sv].slot(r0)
                            == w1.spec_stores().store_seq()[sv].slot(r0));
                    } else {
                        assert(!tab3.has_type(t));
                    }
                } else {
                    assert(self.spec_tables().table_seq()[tv2]
                        == w1.spec_tables().table_seq()[tv2]);
                    let tab = w1.spec_tables().table_seq()[tv2];
                    if tab.has_type(t) {
                        tab.lemma_col_of(t);
                        assert(w1.spec_tables().table_seq()[tv2].column_ids()[tab.col_of(t)]
                            == tab.column_ids()[tab.col_of(t)]);
                        let sv = tab.column_ids()[tab.col_of(t)].value() as int;
                        assert(!is_column_store(tab1, sv)) by {
                            if is_column_store(tab1, sv) {
                                let c2 = choose|c2: int|
                                    0 <= c2 < tab1.column_ids().len() && (
                                    #[trigger] tab1.column_ids()[c2]).value() == sv;
                                assert(w1.spec_tables().table_seq()[tv].column_ids()[c2]
                                    != w1.spec_tables().table_seq()[tv2].column_ids()[tab.col_of(
                                        t,
                                    )]);
                                lemma_store_id_value_injective(
                                    tab1.column_ids()[c2],
                                    w1.spec_tables().table_seq()[tv2].column_ids()[tab.col_of(t)],
                                );
                            }
                        }
                        assert(self.spec_stores().store_seq()[sv]
                            == w1.spec_stores().store_seq()[sv]);
                    }
                }
            }
        }
    }

    /// Delete `entity_id`: destruct and compact its row slot in every column
    /// of its table, compact the row index, and erase the identity mapping.
    /// Every other entity keeps its identity, its liveness and all its
    /// component values; deleting an identity that is not live is a no-op.
    pub fn del(&mut self, entity_id: EntityId)
        requires
            old(self).wf(),
        ensures
            final(self).wf(),
            !final(self).live(entity_id),
            forall|id: EntityId| id != entity_id ==> final(self).live(id) == old(self).live(id),
            forall|id: EntityId, t: u64|
                id != entity_id ==> final(self).entity_value(id, t) == old(self).entity_value(
                    id,
                    t,
                ),
            final(self).spec_entities().next_value() == old(self).spec_entities().next_value(),
            final(self).spec_entities().issued_ids() == old(self).spec_entities().issued_ids(),
            final(self).spec_stores().lock_map() == old(self).spec_stores().lock_map(),
            final(self).spec_tables().table_seq().len() == old(self).spec_tables().table_seq().len(),
            !old(self).live(entity_id) ==> final(self).spec_tables() == old(self).spec_tables()
                && final(self).spec_stores() == old(self).spec_stores() && final(self).spec_entities() == old(self).spec_entities(),
            old(self).live(entity_id) ==> ({
                let tv = old(self).spec_entities().table_map()[entity_id].value() as int;
                let tab0 = old(self).spec_tables().table_seq()[tv];
                &&& forall|t: int|
                    0 <= t < old(self).spec_tables().table_seq().len() && t != tv
                        ==> #[trigger] final(self).spec_tables().table_seq()[t] == old(
                        self,
                    ).spec_tables().table_seq()[t]
                &&& final(self).spec_tables().table_seq()[tv].row_ids() == tab0.row_ids().remove(
                    row_of(tab0, entity_id),
                )
                &&& final(self).spec_tables().table_seq()[tv].type_seq() == tab0.type_seq()
                &&& final(self).spec_tables().table_seq()[tv].column_ids() == tab0.column_ids()
            }),
    {
        let found = self.entities.table_id(entity_id);
        if let Some(tid) = found {
            let ghost w0 = *old(self);
            let ghost tv = tid.value() as int;
            let ghost tab0 = w0.spec_tables().table_seq()[tv];
            let row = self.tables.get(tid).entity_index(entity_id).unwrap();
            proof {
                lemma_row_of_unique(tab0, entity_id, row as int);
            }
            let cols_n = self.tables.get(tid).columns().len();
            for c in 0..cols_n
                invariant
                    w0 == *old(self),
                    w0.wf(),
                    self.entities == w0.spec_entities(),
                    self.tables == w0.spec_tables(),
                    w0.spec_entities().table_map().contains_key(entity_id),
                    w0.spec_entities().table_map()[entity_id] == tid,
                    tv == tid.value() as int,
                    0 <= tv < w0.spec_tables().table_seq().len(),
                    tab0 == w0.spec_tables().table_seq()[tv],
                    cols_n == tab0.column_ids().len(),
                    (row as int) < tab0.row_ids().len(),
                    tab0.row_ids()[row as int] == entity_id,
                    self.stores.wf(),
                    self.stores.store_seq().len() == w0.spec_stores().store_seq().len(),
                    self.stores.lock_map() == w0.spec_stores().lock_map(),
                    forall|s: int|
                        0 <= s < self.stores.store_seq().len() && !is_column_store(tab0, s)
                            ==> #[trigger] self.stores.store_seq()[s]
                            == w0.spec_stores().store_seq()[s],
                    forall|c2: int|
                        c as int <= c2 < cols_n ==> self.stores.store_seq()[(
                        #[trigger] tab0.column_ids()[c2]).value() as int] == w0.spec_stores().store_seq()[tab0.column_ids()[c2].value() as int],
                    forall|c2: int|
                        0 <= c2 < c as int ==> column_compacted(
                            w0.spec_stores().store_seq()[(#[trigger] tab0.column_ids()[c2]).value() as int],
                            self.stores.store_seq()[tab0.column_ids()[c2].value() as int],
                            row as int,
                        ),
            {
                let sid = self.tables.get(tid).columns()[c];
                proof {
                    assert(w0.spec_tables().table_seq()[tv].column_ids()[c as int] == sid);
                    assert(is_column_store(tab0, sid.value() as int));
                    assert(self.stores.store_seq()[sid.value() as int]
                        == w0.spec_stores().store_seq()[sid.value() as int]);
                }
                let ghost stores_pre = self.stores;
                proof {
                    stores_pre.lemma_store_wf(sid.value() as int);
                    assert(w0.spec_stores().store_seq()[sid.value() as int].capacity()
                        >= tab0.row_ids().len());
                }
                let st = self.stores.get_mut(sid);
                st.remove(row);
                proof {
                    let sv = sid.value() as int;
                    assert forall|s: int|
                        0 <= s < self.stores.store_seq().len() && !is_column_store(tab0, s)
                            implies #[trigger] self.stores.store_seq()[s]
                        == w0.spec_stores().store_seq()[s] by {
                        assert(s != sv);
                        assert(self.stores.store_seq()[s] == stores_pre.store_seq()[s]);
                    }
                    assert forall|c2: int|
                        c as int + 1 <= c2 < cols_n implies self.stores.store_seq()[(
                    #[trigger] tab0.column_ids()[c2]).value() as int] == w0.spec_stores().store_seq()[tab0.column_ids()[c2].value() as int] by {
                        assert(w0.spec_tables().table_seq()[tv].column_ids()[c2]
                            != w0.spec_tables().table_seq()[tv].column_ids()[c as int]);
                        assert(tab0.column_ids()[c2].value() != sv);
                        assert(self.stores.store_seq()[tab0.column_ids()[c2].value() as int]
                            == stores_pre.store_seq()[tab0.column_ids()[c2].value() as int]);
                    }
                    assert forall|c2: int|
                        0 <= c2 < c as int + 1 implies column_compacted(
                        w0.spec_stores().store_seq()[(#[trigger] tab0.column_ids()[c2]).value() as int],
                        self.stores.store_seq()[tab0.column_ids()[c2].value() as int],
                        row as int,
                    ) by {
                        if c2 < c as int {
                            assert(w0.spec_tables().table_seq()[tv].column_ids()[c2]
                                != w0.spec_tables().table_seq()[tv].column_ids()[c as int]);
                            assert(tab0.column_ids()[c2].value() != sv);
                            assert(self.stores.store_seq()[tab0.column_ids()[c2].value() as int]
                                == stores_pre.store_seq()[tab0.column_ids()[c2].value() as int]);
                        }
                    }
                }
            }
            let tref = self.tables.get_mut(tid);
            tref.remove(row);
            self.entities.del(entity_id);
            proof {
                self.lemma_del_restores(w0, entity_id, tid, row as int);
            }
        }
    }

    /// After a deletion's compactions, the world invariant holds again and
    /// every other entity keeps its values.
    proof fn lemma_del_restores(self, w0: World, entity_id: EntityId, tid: TableId, row: int)
        requires
            w0.wf(),
            w0.spec_entities().table_map().contains_key(entity_id),
            w0.spec_entities().table_map()[entity_id] == tid,
            0 <= tid.value() < w0.spec_tables().table_seq().len(),
            0 <= row < w0.spec_tables().table_seq()[tid.value() as int].row_ids().len(),
            w0.spec_tables().table_seq()[tid.value() as int].row_ids()[row] == entity_id,
            self.spec_entities().wf(),
            self.spec_entities().table_map() == w0.spec_entities().table_map().remove(entity_id),
            self.spec_entities().next_value() == w0.spec_entities().next_value(),
            self.spec_tables().wf(),
            self.spec_tables().table_seq() == w0.spec_tables().table_seq().update(
                tid.value() as int,
                self.spec_tables().table_seq()[tid.value() as int],
            ),
            self.spec_tables().table_seq()[tid.value() as int].row_ids() == w0.spec_tables().table_seq()[tid.value() as int].row_ids().remove(
                row,
            ),
            self.spec_tables().table_seq()[tid.value() as int].type_seq() == w0.spec_tables().table_seq()[tid.value() as int].type_seq(),
            self.spec_tables().table_seq()[tid.value() as int].column_ids() == w0.spec_tables().table_seq()[tid.value() as int].column_ids(),
            self.spec_stores().wf(),
            self.spec_stores().store_seq().len() == w0.spec_stores().store_seq().len(),
            forall|s: int|
                0 <= s < self.spec_stores().store_seq().len() && !is_column_store(
                    w0.spec_tables().table_seq()[tid.value() as int],
                    s,
                ) ==> #[trigger] self.spec_stores().store_seq()[s]
                    == w0.spec_stores().store_seq()[s],
            forall|c: int|
                0 <= c < w0.spec_tables().table_seq()[tid.value() as int].column_ids().len()
                    ==> column_compacted(
                    w0.spec_stores().store_seq()[(#[trigger] w0.spec_tables().table_seq()[tid.value() as int].column_ids()[c]).value() as int],
                    self.spec_stores().store_seq()[w0.spec_tables().table_seq()[tid.value() as int].column_ids()[c].value() as int],
                    row,
                ),
        ensures
            self.wf(),
            !self.live(entity_id),
            forall|id: EntityId| id != entity_id ==> self.live(id) == w0.live(id),
            forall|id: EntityId, t: u64|
                id != entity_id ==> self.entity_value(id, t) == w0.entity_value(id, t),
    {
        let tv = tid.value() as int;
        let tab0 = w0.spec_tables().table_seq()[tv];
        let tab1 = self.spec_tables().table_seq()[tv];
        let rows0 = tab0.row_ids();
        let rows1 = tab1.row_ids();
        assert(rows1 == rows0.remove(row));
        assert forall|k: int| 0 <= k < rows1.len() implies #[trigger] rows1[k] == if k < row {
            rows0[k]
        } else {
            rows0[k + 1]
        } by {}

        // Rows of the compacted table are mapped, minus the deleted identity.
        assert(self.rows_mapped()) by {
            assert forall|t: int, r: int|
                #![trigger self.spec_tables().table_seq()[t].row_ids()[r]]
                0 <= t < self.spec_tables().table_seq().len() && 0 <= r
                    < self.spec_tables().table_seq()[t].row_ids().len() implies {
                let id = self.spec_tables().table_seq()[t].row_ids()[r];
                &&& self.spec_entities().table_map().contains_key(id)
                &&& self.spec_entities().table_map()[id].value() == t
            } by {
                if t == tv {
                    let id = rows1[r];
                    let r0: int = if r < row {
                        r
                    } else {
                        r + 1
                    };
                    assert(id == rows0[r0]);
                    assert(w0.spec_tables().table_seq()[tv].row_ids()[r0] == id);
                    assert(r0 != row);
                    assert(id != entity_id) by {
                        if id == entity_id {
                            assert(rows0[row] == rows0[r0]);
                        }
                    }
                } else {
                    let id = self.spec_tables().table_seq()[t].row_ids()[r];
                    assert(self.spec_tables().table_seq()[t] == w0.spec_tables().table_seq()[t]);
                    assert(w0.spec_tables().table_seq()[t].row_ids()[r] == id);
                    assert(w0.spec_entities().table_map()[id].value() == t);
                    assert(id != entity_id);
                }
            }
        }
        assert(entities_linked(self.spec_entities(), self.spec_tables())) by {
            assert forall|id: EntityId| #[trigger] self.spec_entities().table_map().contains_key(
                id,
            ) implies {
                let tv2 = self.spec_entities().table_map()[id].value();
                &&& tv2 < self.spec_tables().table_seq().len()
                &&& self.spec_tables().table_seq()[tv2 as int].row_ids().contains(id)
            } by {
                assert(w0.spec_entities().table_map().contains_key(id));
                let tv2 = w0.spec_entities().table_map()[id].value() as int;
                assert(id != entity_id);
                if tv2 == tv {
                    let r0 = row_of(tab0, id);
                    lemma_row_of(tab0, id);
                    assert(r0 != row) by {
                        if r0 == row {
                            assert(rows0[row] == entity_id);
                        }
                    }
                    let r1: int = if r0 < row {
                        r0
                    } else {
                        r0 - 1
                    };
                    assert(rows1[r1] == id);
                    assert(rows1.contains(id));
                } else {
                    assert(self.spec_tables().table_seq()[tv2]
                        == w0.spec_tables().table_seq()[tv2]);
                }
            }
        }
        assert(tables_linked(self.spec_tables(), self.spec_stores())) by {
            assert forall|t: int, c: int|
                #![trigger self.spec_tables().table_seq()[t].column_ids()[c]]
                0 <= t < self.spec_tables().table_seq().len() && 0 <= c
                    < self.spec_tables().table_seq()[t].column_ids().len() implies {
                let tab = self.spec_tables().table_seq()[t];
                let sv = tab.column_ids()[c].value();
                &&& sv < self.spec_stores().store_seq().len()
                &&& self.spec_stores().store_seq()[sv as int].item_type() == tab.type_seq()[c]
                &&& self.spec_stores().store_seq()[sv as int].capacity() >= tab.row_ids().len()
            } by {
                let tab = self.spec_tables().table_seq()[t];
                let tw = w0.spec_tables().table_seq()[t];
                assert(tab.column_ids() == tw.column_ids());
                assert(tab.type_seq() == tw.type_seq());
                assert(w0.spec_tables().table_seq()[t].column_ids()[c] == tab.column_ids()[c]);
                let sv = tab.column_ids()[c].value() as int;
                if t == tv {
                    assert(column_compacted(
                        w0.spec_stores().store_seq()[sv],
                        self.spec_stores().store_seq()[sv],
                        row,
                    ));
                } else {
                    assert(!is_column_store(tab0, sv)) by {
                        if is_column_store(tab0, sv) {
                            let c2 = choose|c2: int|
                                0 <= c2 < tab0.column_ids().len() && (#[trigger] tab0.column_ids()[c2]).value()
                                    == sv;
                            assert(w0.spec_tables().table_seq()[tv].column_ids()[c2]
                                != w0.spec_tables().table_seq()[t].column_ids()[c]);
                            lemma_store_id_value_injective(
                                tab0.column_ids()[c2],
                                w0.spec_tables().table_seq()[t].column_ids()[c],
                            );
                        }
                    }
                    assert(self.spec_stores().store_seq()[sv]
                        == w0.spec_stores().store_seq()[sv]);
                }
            }
        }
        assert(self.columns_owned()) by {
            assert forall|t1: int, c1: int, t2: int, c2: int|
                #![trigger self.spec_tables().table_seq()[t1].column_ids()[c1], self.spec_tables().table_seq()[t2].column_ids()[c2]]
                0 <= t1 < self.spec_tables().table_seq().len() && 0 <= c1
                    < self.spec_tables().table_seq()[t1].column_ids().len() && 0 <= t2
                    < self.spec_tables().table_seq().len() && 0 <= c2
                    < self.spec_tables().table_seq()[t2].column_ids().len() && (t1 != t2 || c1
                    != c2) implies self.spec_tables().table_seq()[t1].column_ids()[c1]
                != self.spec_tables().table_seq()[t2].column_ids()[c2] by {
                assert(self.spec_tables().table_seq()[t1].column_ids()
                    == w0.spec_tables().table_seq()[t1].column_ids());
                assert(self.spec_tables().table_seq()[t2].column_ids()
                    == w0.spec_tables().table_seq()[t2].column_ids());
                assert(w0.spec_tables().table_seq()[t1].column_ids()[c1]
                    != w0.spec_tables().table_seq()[t2].column_ids()[c2]);
            }
        }
        assert(self.rows_bounded()) by {
            assert forall|t: int|
                0 <= t < self.spec_tables().table_seq().len() implies (
            #[trigger] self.spec_tables().table_seq()[t]).row_ids().len()
                <= self.spec_entities().next_value() by {
                assert(w0.spec_tables().table_seq()[t].row_ids().len()
                    <= w0.spec_entities().next_value());
                if t != tv {
                    assert(self.spec_tables().table_seq()[t]
                        == w0.spec_tables().table_seq()[t]);
                }
            }
        }

        // Every other entity keeps its values.
        assert forall|id: EntityId, t: u64|
            id != entity_id implies self.entity_value(id, t) == w0.entity_value(id, t) by {
            assert(self.live(id) == w0.live(id));
            if w0.live(id) {
                let tv2 = w0.spec_entities().table_map()[id].value() as int;
                assert(self.spec_entities().table_map()[id]
                    == w0.spec_entities().table_map()[id]);
                if tv2 == tv {
                    assert(tab1.type_seq() == tab0.type_seq());
                    if tab0.has_type(t) {
                        let sv = tab0.column_ids()[tab0.col_of(t)].value() as int;
                        tab0.lemma_col_of(t);
                        assert(w0.spec_tables().table_seq()[tv].column_ids()[tab0.col_of(t)]
                            == tab0.column_ids()[tab0.col_of(t)]);
                        assert(column_compacted(
                            w0.spec_stores().store_seq()[sv],
                            self.spec_stores().store_seq()[sv],
                            row,
                        ));
                        let r0 = row_of(tab0, id);
                        assert(w0.rows_mapped());
                        assert(w0.spec_tables().table_seq()[tv].row_ids()[row] == entity_id);
                        lemma_row_of(tab0, id);
                        assert(r0 != row) by {
                            if r0 == row {
                                assert(rows0[row] == entity_id);
                            }
                        }
                        let r1: int = if r0 < row {
                            r0
                        } else {
                            r0 - 1
                        };
                        assert(rows1[r1] == id);
                        lemma_row_of_unique(tab1, id, r1);
                        assert(w0.spec_stores().store_seq()[sv].capacity() >= rows0.len());
                        if r0 < row {
                            assert(self.spec_stores().store_seq()[sv].slot(r1)
                                == w0.spec_stores().store_seq()[sv].slot(r0));
                        } else {
                            assert(row <= r1 < w0.spec_stores().store_seq()[sv].capacity() - 1);
                            assert(self.spec_stores().store_seq()[sv].slot(r1)
                                == w0.spec_stores().store_seq()[sv].slot(r0));
                        }
                    } else {
                        assert(!tab1.has_type(t));
                    }
                } else {
                    assert(self.spec_tables().table_seq()[tv2]
                        == w0.spec_tables().table_seq()[tv2]);
                    let tab = w0.spec_tables().table_seq()[tv2];
                    if tab.has_type(t) {
                        tab.lemma_col_of(t);
                        let sv = tab.column_ids()[tab.col_of(t)].value() as int;
                        assert(w0.spec_tables().table_seq()[tv2].column_ids()[tab.col_of(t)]
                            == tab.column_ids()[tab.col_of(t)]);
                        assert(!is_column_store(tab0, sv)) by {
                            if is_column_store(tab0, sv) {
                                let c2 = choose|c2: int|
                                    0 <= c2 < tab0.column_ids().len() && (
                                    #[trigger] tab0.column_ids()[c2]).value() == sv;
                                assert(w0.spec_tables().table_seq()[tv].column_ids()[c2]
                                    != w0.spec_tables().table_seq()[tv2].column_ids()[tab.col_of(
                                        t,
                                    )]);
                                lemma_store_id_value_injective(
                                    tab0.column_ids()[c2],
                                    w0.spec_tables().table_seq()[tv2].column_ids()[tab.col_of(t)],
                                );
                            }
                        }
                        assert(self.spec_stores().store_seq()[sv]
                            == w0.spec_stores().store_seq()[sv]);
                    }
                }
            }
        }
    }

    /// A world differing from `w0` only in guard state keeps the invariant
    /// and every entity's values.
    proof fn lemma_same_but_locks(self, w0: World)
        requires
            w0.wf(),
            self.spec_entities() == w0.spec_entities(),
            self.spec_tables() == w0.spec_tables(),
            self.spec_stores().wf(),
            self.spec_stores().store_seq() == w0.spec_stores().store_seq(),
        ensures
            self.wf(),
            forall|id: EntityId, t: u64| self.entity_value(id, t) == w0.entity_value(id, t),
    {
        assert(tables_linked(self.spec_tables(), self.spec_stores())) by {
            assert forall|t: int, c: int|
                #![trigger self.spec_tables().table_seq()[t].column_ids()[c]]
                0 <= t < self.spec_tables().table_seq().len() && 0 <= c
                    < self.spec_tables().table_seq()[t].column_ids().len() implies {
                let tab = self.spec_tables().table_seq()[t];
                let sv = tab.column_ids()[c].value();
                &&& sv < self.spec_stores().store_seq().len()
                &&& self.spec_stores().store_seq()[sv as int].item_type() == tab.type_seq()[c]
                &&& self.spec_stores().store_seq()[sv as int].capacity() >= tab.row_ids().len()
            } by {
                assert(w0.spec_tables().table_seq()[t].column_ids()[c]
                    == self.spec_tables().table_seq()[t].column_ids()[c]);
            }
        }
        assert forall|id: EntityId, t: u64| self.entity_value(id, t) == w0.entity_value(id, t) by {
            assert(self.live(id) == w0.live(id));
        }
    }
}

/// What a query's row output means in terms of the world: per term, the
/// yielded bytes are exactly the row entity's component value of that type,
/// and the missing marker stands exactly where the entity has no component of
/// the type. A row spawned with given values therefore reads back
/// byte-for-byte.
pub proof fn lemma_row_output_values(
    w: World,
    tv: int,
    r: int,
    terms: Seq<QueryTerm>,
    vals: Seq<Option<Vec<u8>>>,
)
    requires
        w.wf(),
        0 <= tv < w.spec_tables().table_seq().len(),
        0 <= r < w.spec_tables().table_seq()[tv].row_ids().len(),
        row_output_ok(w.spec_tables().table_seq()[tv], w.spec_stores(), terms, r, vals),
    ensures
        forall|j: int|
            0 <= j < terms.len() ==> {
                let id = w.spec_tables().table_seq()[tv].row_ids()[r];
                let key = (#[trigger] terms[j]).key;
                &&& (vals[j] is Some <==> w.entity_value(id, key) is Some)
                &&& (vals[j] matches Some(v) ==> w.entity_value(id, key) == Some(v@))
            },
{
    let tab = w.spec_tables().table_seq()[tv];
    let id = tab.row_ids()[r];
    assert(w.spec_entities().table_map().contains_key(id) && w.spec_entities().table_map()[id].value()
        == tv);
    lemma_row_of_unique(tab, id, r);
    assert forall|j: int| 0 <= j < terms.len() implies {
        let key = (#[trigger] terms[j]).key;
        &&& (vals[j] is Some <==> w.entity_value(id, key) is Some)
        &&& (vals[j] matches Some(v) ==> w.entity_value(id, key) == Some(v@))
    } by {
        let key = terms[j].key;
        if tab.has_type(key) {
            assert(vals[j] is Some);
        } else {
            assert(vals[j] is None);
        }
    }
}

/// A live entity occupies exactly one row of one table, so a query yields it
/// at most once per iteration: any two row positions holding the same
/// identity are the same position.
pub proof fn lemma_entity_has_one_row(
    w: World,
    id: EntityId,
    t1: int,
    r1: int,
    t2: int,
    r2: int,
)
    requires
        w.wf(),
        0 <= t1 < w.spec_tables().table_seq().len(),
        0 <= r1 < w.spec_tables().table_seq()[t1].row_ids().len(),
        0 <= t2 < w.spec_tables().table_seq().len(),
        0 <= r2 < w.spec_tables().table_seq()[t2].row_ids().len(),
        w.spec_tables().table_seq()[t1].row_ids()[r1] == id,
        w.spec_tables().table_seq()[t2].row_ids()[r2] == id,
    ensures
        t1 == t2,
        r1 == r2,
{
    assert(w.spec_entities().table_map()[id].value() == t1);
    assert(w.spec_entities().table_map()[id].value() == t2);
    lemma_row_of_unique(w.spec_tables().table_seq()[t1], id, r1);
    lemma_row_of_unique(w.spec_tables().table_seq()[t2], id, r2);
}

/// A deleted (or never-issued) identity occupies no row of any table, so no
/// subsequent query — full or identity-scoped — ever yields it.
pub proof fn lemma_deleted_not_yielded(w: World, id: EntityId, tv: int, r: int)
    requires
        w.wf(),
        !w.live(id),
        0 <= tv < w.spec_tables().table_seq().len(),
        0 <= r < w.spec_tables().table_seq()[tv].row_ids().len(),
    ensures
        w.spec_tables().table_seq()[tv].row_ids()[r] != id,
{
    assert(w.spec_entities().table_map().contains_key(
        w.spec_tables().table_seq()[tv].row_ids()[r],
    ));
}

/// The row index length bounds every column: in a well-formed world each
/// column store of a table holds that table's component type and has at least
/// one slot per row, whatever deletes and spawns came before.
pub proof fn lemma_columns_aligned(w: World, tv: int, c: int)
    requires
        w.wf(),
        0 <= tv < w.spec_tables().table_seq().len(),
        0 <= c < w.spec_tables().table_seq()[tv].column_ids().len(),
    ensures
        w.spec_tables().table_seq()[tv].column_ids()[c].value()
            < w.spec_stores().store_seq().len(),
        w.spec_stores().store_seq()[w.spec_tables().table_seq()[tv].column_ids()[c].value() as int].item_type()
            == w.spec_tables().table_seq()[tv].type_seq()[c],
        w.spec_stores().store_seq()[w.spec_tables().table_seq()[tv].column_ids()[c].value() as int].capacity()
            >= w.spec_tables().table_seq()[tv].row_ids().len(),
{
    assert(w.spec_tables().table_seq()[tv].column_ids()[c]
        == w.spec_tables().table_seq()[tv].column_ids()[c]);
}

impl Default for World {
    /// A world with no entity, no store and no table.
    fn default() -> (r: Self)
        ensures
            r.wf(),
            r.spec_entities().next_value() == 0,
            r.spec_entities().issued_ids() == Seq::<EntityId>::empty(),
            r.spec_tables().table_seq() == Seq::<Table>::empty(),
            r.spec_stores().store_seq().len() == 0,
            forall|id: EntityId| !r.live(id),
            forall|t: u64| !r.spec_stores().lock_map().contains_key(t),
    {
        let w = World {
            entities: Entities::default(),
            stores: Stores::default(),
            tables: Tables::default(),
        };
        w
    }
}

} // verus!


