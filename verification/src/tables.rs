//! Archetype tables and their directory.
//!
//! A table is a fixed, ordered set of component-type columns sharing one row
//! index: the ordered list of entity identities occupying each row. Every
//! column's logical length is the row index length at all times.

use vstd::prelude::*;

use crate::entity::EntityId;
use crate::store::{ItemType, StoreId};

verus! {

/// An opaque handle to one archetype table, valid for its directory's
/// lifetime.
#[derive(Clone, Copy, PartialEq, Eq, Structural, Hash, Debug)]
pub struct TableId(usize);

impl TableId {
    /// The position of the table in its directory.
    pub closed spec fn value(self) -> nat {
        self.0 as nat
    }
}

/// One archetype: (component type, column store) pairs fixed at creation,
/// plus the ordered row index of entity identities.
pub struct Table {
    types: Vec<ItemType>,
    store_ids: Vec<StoreId>,
    entities: Vec<EntityId>,
}

impl Table {
    /// The ordered component-type signature.
    pub closed spec fn type_seq(self) -> Seq<ItemType> {
        self.types@
    }

    /// The column stores, one per component type, in signature order.
    pub closed spec fn column_ids(self) -> Seq<StoreId> {
        self.store_ids@
    }

    /// The row index: which entity occupies each row.
    pub closed spec fn row_ids(self) -> Seq<EntityId> {
        self.entities@
    }

    /// Some column holds the component type with identity `t`.
    pub open spec fn has_type(self, t: u64) -> bool {
        exists|c: int| 0 <= c < self.type_seq().len() && (#[trigger] self.type_seq()[c]).id == t
    }

    /// The column holding the component type with identity `t` (unique in a
    /// well-formed table).
    pub open spec fn col_of(self, t: u64) -> int {
        choose|c: int| 0 <= c < self.type_seq().len() && (#[trigger] self.type_seq()[c]).id == t
    }

    /// Each column has a store, component types occur once each, and no
    /// entity occupies two rows.
    pub open spec fn wf(self) -> bool {
        &&& self.type_seq().len() == self.column_ids().len()
        &&& forall|a: int, b: int|
            0 <= a < b < self.type_seq().len() ==> (#[trigger] self.type_seq()[a]).id
                != (#[trigger] self.type_seq()[b]).id
        &&& forall|a: int, b: int|
            0 <= a < b < self.row_ids().len() ==> (#[trigger] self.row_ids()[a])
                != (#[trigger] self.row_ids()[b])
    }

    /// Where `t` is present, `col_of` names a column that holds it.
    pub proof fn lemma_col_of(self, t: u64)
        requires
            self.has_type(t),
        ensures
            0 <= self.col_of(t) < self.type_seq().len(),
            self.type_seq()[self.col_of(t)].id == t,
    {
    }

    /// Record one more column. The signature is fixed before rows exist.
    pub fn add_column(&mut self, store_id: StoreId, typ: ItemType)
        requires
            old(self).wf(),
            !old(self).has_type(typ.id),
        ensures
            final(self).wf(),
            final(self).type_seq() == old(self).type_seq().push(typ),
            final(self).column_ids() == old(self).column_ids().push(store_id),
            final(self).row_ids() == old(self).row_ids(),
    {
        self.store_ids.push(store_id);
        self.types.push(typ);
        proof {
            assert forall|a: int, b: int|
                0 <= a < b < self.type_seq().len() implies (#[trigger] self.type_seq()[a]).id
                != (#[trigger] self.type_seq()[b]).id by {
                assert(self.type_seq()[a] == old(self).type_seq()[a]);
                if b < self.type_seq().len() - 1 {
                    assert(self.type_seq()[b] == old(self).type_seq()[b]);
                } else {
                    assert(self.type_seq()[b] == typ);
                    assert(!(old(self).type_seq()[a].id == typ.id));
                }
            }
            assert forall|a: int, b: int|
                0 <= a < b < self.row_ids().len() implies (#[trigger] self.row_ids()[a])
                != (#[trigger] self.row_ids()[b]) by {
                assert(self.row_ids()[a] == old(self).row_ids()[a]);
                assert(self.row_ids()[b] == old(self).row_ids()[b]);
            }
        }
    }

    /// The store of the column holding the component type with identity `t`,
    /// if any.
    pub fn column_by_key(&self, t: u64) -> (r: Option<StoreId>)
        requires
            self.wf(),
        ensures
            r is Some <==> self.has_type(t),
            r matches Some(sid) ==> sid == self.column_ids()[self.col_of(t)],
    {
        let n = self.types.len();
        for c in 0..n
            invariant
                self.wf(),
                n == self.types@.len(),
                forall|j: int| 0 <= j < c ==> (#[trigger] self.types@[j]).id != t,
        {
            if self.types[c].id == t {
                proof {
                    assert(self.has_type(t));
                    self.lemma_col_of(t);
                    assert(self.col_of(t) == c as int);
                }
                return Some(self.store_ids[c]);
            }
        }
        None
    }

    /// The store of the column holding `typ`'s component type, if any.
    pub fn column(&self, typ: &ItemType) -> (r: Option<StoreId>)
        requires
            self.wf(),
        ensures
            r is Some <==> self.has_type(typ.id),
            r matches Some(sid) ==> sid == self.column_ids()[self.col_of(typ.id)],
    {
        self.column_by_key(typ.id)
    }

    /// Whether a column holds `typ`'s component type.
    pub fn has_column(&self, typ: &ItemType) -> (r: bool)
        requires
            self.wf(),
        ensures
            r == self.has_type(typ.id),
    {
        self.column(typ).is_some()
    }

    /// The column stores in signature order.
    pub fn columns(&self) -> (r: &Vec<StoreId>)
        ensures
            r@ == self.column_ids(),
    {
        &self.store_ids
    }

    /// How many rows the table holds.
    pub fn len(&self) -> (r: usize)
        ensures
            r == self.row_ids().len(),
    {
        self.entities.len()
    }

    /// Whether the table holds no row.
    pub fn is_empty(&self) -> (r: bool)
        ensures
            r == (self.row_ids().len() == 0),
    {
        self.entities.len() == 0
    }

    /// Append a row for `entity_id` and return its position.
    pub fn push(&mut self, entity_id: EntityId) -> (idx: usize)
        requires
            old(self).wf(),
            !old(self).row_ids().contains(entity_id),
        ensures
            final(self).wf(),
            idx == old(self).row_ids().len(),
            final(self).row_ids() == old(self).row_ids().push(entity_id),
            final(self).type_seq() == old(self).type_seq(),
            final(self).column_ids() == old(self).column_ids(),
    {
        let idx = self.entities.len();
        self.entities.push(entity_id);
        proof {
            assert forall|a: int, b: int|
                0 <= a < b < self.entities@.len() implies (#[trigger] self.entities@[a])
                != (#[trigger] self.entities@[b]) by {
                assert(self.entities@[a] == old(self).entities@[a]);
                if b < self.entities@.len() - 1 {
                    assert(self.entities@[b] == old(self).entities@[b]);
                } else {
                    assert(self.entities@[b] == entity_id);
                    assert(old(self).row_ids()[a] != entity_id);
                }
            }
        }
        idx
    }

    /// The row occupied by `entity_id`, if any.
    pub fn entity_index(&self, entity_id: EntityId) -> (r: Option<usize>)
        ensures
            r matches Some(i) ==> (i as int) < self.row_ids().len() && self.row_ids()[i as int]
                == entity_id,
            r is None <==> !self.row_ids().contains(entity_id),
    {
        let n = self.entities.len();
        for i in 0..n
            invariant
                n == self.entities@.len(),
                forall|j: int| 0 <= j < i ==> (#[trigger] self.entities@[j]) != entity_id,
        {
            if self.entities[i] == entity_id {
                return Some(i);
            }
        }
        None
    }

    /// The entity at row `idx`, if the row exists.
    pub fn get(&self, idx: usize) -> (r: Option<EntityId>)
        ensures
            r is Some <==> (idx as int) < self.row_ids().len(),
            r matches Some(id) ==> id == self.row_ids()[idx as int],
    {
        if idx < self.entities.len() {
            Some(self.entities[idx])
        } else {
            None
        }
    }

    /// Remove row `idx` from the row index; later rows shift one position
    /// toward it, keeping their relative order.
    pub fn remove(&mut self, idx: usize)
        requires
            old(self).wf(),
            (idx as int) < old(self).row_ids().len(),
        ensures
            final(self).wf(),
            final(self).row_ids() == old(self).row_ids().remove(idx as int),
            final(self).type_seq() == old(self).type_seq(),
            final(self).column_ids() == old(self).column_ids(),
    {
        self.entities.remove(idx);
        proof {
            assert forall|a: int, b: int|
                0 <= a < b < self.entities@.len() implies (#[trigger] self.entities@[a])
                != (#[trigger] self.entities@[b]) by {
                let a2: int = if a < idx { a } else { a + 1 };
                let b2: int = if b < idx { b } else { b + 1 };
                assert(self.entities@[a] == old(self).entities@[a2]);
                assert(self.entities@[b] == old(self).entities@[b2]);
            }
        }
    }
}

/// Owns every archetype table and finds the table matching an archetype
/// signature.
pub struct Tables {
    tables: Vec<Table>,
}

impl Tables {
    /// The tables in creation order.
    pub closed spec fn table_seq(self) -> Seq<Table> {
        self.tables@
    }

    /// Every table is well-formed.
    pub open spec fn wf(self) -> bool {
        forall|i: int| 0 <= i < self.table_seq().len() ==> (#[trigger] self.table_seq()[i]).wf()
    }

    /// Allocate a fresh, empty table with no column and no row.
    pub fn create(&mut self) -> (r: TableId)
        requires
            old(self).wf(),
        ensures
            final(self).wf(),
            r.value() == old(self).table_seq().len(),
            final(self).table_seq().len() == old(self).table_seq().len() + 1,
            forall|i: int|
                0 <= i < old(self).table_seq().len() ==> final(self).table_seq()[i] == old(
                    self,
                ).table_seq()[i],
            final(self).table_seq().last().wf(),
            final(self).table_seq().last().type_seq() == Seq::<ItemType>::empty(),
            final(self).table_seq().last().column_ids() == Seq::<StoreId>::empty(),
            final(self).table_seq().last().row_ids() == Seq::<EntityId>::empty(),
    {
        let id = TableId(self.tables.len());
        self.tables.push(Table { types: Vec::new(), store_ids: Vec::new(), entities: Vec::new() });
        proof {
            assert forall|j: int| 0 <= j < self.tables@.len() implies (#[trigger] self.tables@[j]).wf()
            by {
                if j < self.tables@.len() - 1 {
                    assert(self.tables@[j] == old(self).tables@[j]);
                }
            }
        }
        id
    }

    /// Drop the table behind `id`: its slot is emptied in place — no column,
    /// no row, no signature — and never shifted, so every other handle stays
    /// valid and names the same table, and no handle is ever reused for a
    /// different table. Rarely used, never by the normal spawn/delete/query
    /// flow.
    pub fn drop(&mut self, id: TableId)
        requires
            old(self).wf(),
            id.value() < old(self).table_seq().len(),
        ensures
            final(self).wf(),
            final(self).table_seq().len() == old(self).table_seq().len(),
            forall|t: int|
                0 <= t < old(self).table_seq().len() && t != id.value()
                    ==> #[trigger] final(self).table_seq()[t] == old(self).table_seq()[t],
            final(self).table_seq()[id.value() as int].type_seq() == Seq::<ItemType>::empty(),
            final(self).table_seq()[id.value() as int].column_ids() == Seq::<StoreId>::empty(),
            final(self).table_seq()[id.value() as int].row_ids() == Seq::<EntityId>::empty(),
    {
        let TableId(i) = id;
        self.tables[i] = Table { types: Vec::new(), store_ids: Vec::new(), entities: Vec::new() };
        proof {
            assert forall|j: int| 0 <= j < self.tables@.len() implies (#[trigger] self.tables@[j]).wf()
            by {
                if j != i {
                    assert(self.tables@[j] == old(self).tables@[j]);
                }
            }
        }
    }

    /// The earliest table whose signature is exactly the ordered type list
    /// `sig`, if one exists.
    pub fn with_type(&self, sig: &Vec<ItemType>) -> (r: Option<TableId>)
        ensures
            r matches Some(tid) ==> {
                &&& tid.value() < self.table_seq().len()
                &&& self.table_seq()[tid.value() as int].type_seq() == sig@
                &&& forall|j: int|
                    0 <= j < tid.value() ==> (#[trigger] self.table_seq()[j]).type_seq() != sig@
            },
            r is None ==> forall|j: int|
                0 <= j < self.table_seq().len() ==> (#[trigger] self.table_seq()[j]).type_seq()
                    != sig@,
    {
        let n = self.tables.len();
        for i in 0..n
            invariant
                n == self.tables@.len(),
                forall|j: int| 0 <= j < i ==> (#[trigger] self.tables@[j]).type_seq() != sig@,
        {
            if types_eq(&self.tables[i].types, sig) {
                return Some(TableId(i));
            }
        }
        None
    }

    /// How many tables exist.
    pub fn len(&self) -> (r: usize)
        ensures
            r == self.table_seq().len(),
    {
        self.tables.len()
    }

    /// The handle of the table at position `i` in creation order.
    pub fn table_id_at(&self, i: usize) -> (r: TableId)
        requires
            (i as int) < self.table_seq().len(),
        ensures
            r.value() == i,
    {
        TableId(i)
    }

    /// The table behind `id`.
    pub fn get(&self, id: TableId) -> (r: &Table)
        requires
            id.value() < self.table_seq().len(),
        ensures
            *r == self.table_seq()[id.value() as int],
    {
        let TableId(i) = id;
        &self.tables[i]
    }

    /// The table behind `id`, for writing.
    pub fn get_mut(&mut self, id: TableId) -> (r: &mut Table)
        requires
            old(self).wf(),
            id.value() < old(self).table_seq().len(),
        ensures
            *r == old(self).table_seq()[id.value() as int],
            final(self).table_seq() == old(self).table_seq().update(id.value() as int, *final(r)),
            final(r).wf() ==> final(self).wf(),
    {
        let TableId(i) = id;
        &mut self.tables[i]
    }
}

impl Default for Tables {
    /// A directory with no table.
    fn default() -> (r: Self)
        ensures
            r.wf(),
            r.table_seq() == Seq::<Table>::empty(),
    {
        Tables { tables: Vec::new() }
    }
}

/// Whether two ordered type lists are equal.
fn types_eq(a: &Vec<ItemType>, b: &Vec<ItemType>) -> (r: bool)
    ensures
        r == (a@ == b@),
{
    if a.len() != b.len() {
        return false;
    }
    let n = a.len();
    for i in 0..n
        invariant
            n == a@.len(),
            a@.len() == b@.len(),
            forall|j: int| 0 <= j < i ==> a@[j] == b@[j],
    {
        if !(a[i].id == b[i].id && a[i].size == b[i].size) {
            return false;
        }
    }
    proof {
        assert(a@ =~= b@);
    }
    true
}

} // verus!
