//! Entity identities and the allocator that issues them.

use vstd::prelude::*;

use crate::kv::{
    has_key, keys_distinct, kv_map, lemma_kv_map_domain, lemma_kv_map_get, lemma_kv_map_push,
    lemma_kv_map_remove, lemma_kv_map_update,
};
use crate::tables::TableId;

verus! {

/// An opaque handle naming one logical record. Identities are issued in
/// strictly increasing order and are never reused within one allocator's
/// lifetime.
#[derive(Clone, Copy, PartialEq, Eq, Structural, PartialOrd, Ord, Hash, Debug)]
pub struct EntityId(usize);

impl EntityId {
    /// The numeric value behind the handle.
    pub closed spec fn value(self) -> nat {
        self.0 as nat
    }
}

/// Issues entity identities and tracks which archetype table currently holds
/// each live entity.
pub struct Entities {
    next_id: usize,
    tables: Vec<(EntityId, TableId)>,
    issued: Ghost<Seq<EntityId>>,
}

impl Entities {
    /// The value the next issued identity will carry.
    pub closed spec fn next_value(self) -> nat {
        self.next_id as nat
    }

    /// The authoritative mapping from live identity to owning table.
    pub closed spec fn table_map(self) -> Map<EntityId, TableId> {
        kv_map(self.tables@)
    }

    /// Every identity ever issued, in order of allocation.
    pub closed spec fn issued_ids(self) -> Seq<EntityId> {
        self.issued@
    }

    /// Mapping entries have distinct keys, every recorded identity lies below
    /// the allocation counter, and issued identities strictly increase.
    pub closed spec fn wf(self) -> bool {
        &&& keys_distinct(self.tables@)
        &&& forall|i: int|
            0 <= i < self.tables@.len() ==> (#[trigger] self.tables@[i]).0.value() < self.next_value()
        &&& forall|i: int|
            0 <= i < self.issued@.len() ==> (#[trigger] self.issued@[i]).value() < self.next_value()
        &&& forall|i: int, j: int|
            0 <= i < j < self.issued@.len() ==> self.issued@[i].value() < self.issued@[j].value()
    }

    /// Every identity in the table mapping lies below the allocation counter;
    /// in particular the next identity to be issued is not mapped.
    pub proof fn lemma_mapped_below_next(self)
        requires
            self.wf(),
        ensures
            forall|id: EntityId|
                #[trigger] self.table_map().contains_key(id) ==> id.value() < self.next_value(),
    {
        assert forall|id: EntityId| #[trigger] self.table_map().contains_key(id) implies id.value()
            < self.next_value() by {
            lemma_kv_map_domain(self.tables@, id);
            let i = choose|i: int| 0 <= i < self.tables@.len() && (#[trigger] self.tables@[i]).0 == id;
            assert(self.tables@[i].0.value() < self.next_value());
        }
    }

    /// The value the next issued identity will carry (what `allocate` demands
    /// lie below the counter's range).
    pub fn next_id(&self) -> (r: usize)
        ensures
            r == self.next_value(),
    {
        self.next_id
    }

    /// Issue a fresh identity, strictly greater than every identity issued
    /// before and absent from the table mapping.
    pub fn allocate(&mut self) -> (r: EntityId)
        requires
            old(self).wf(),
            old(self).next_value() < usize::MAX,
        ensures
            final(self).wf(),
            r.value() == old(self).next_value(),
            final(self).next_value() == old(self).next_value() + 1,
            final(self).table_map() == old(self).table_map(),
            final(self).issued_ids() == old(self).issued_ids().push(r),
            !old(self).table_map().contains_key(r),
    {
        let id = EntityId(self.next_id);
        self.next_id = self.next_id + 1;
        self.issued = Ghost(self.issued@.push(id));
        proof {
            old(self).lemma_mapped_below_next();
        }
        id
    }

    /// Forget where `id` lives. Deleting an unmapped identity is a no-op.
    pub fn del(&mut self, id: EntityId)
        requires
            old(self).wf(),
        ensures
            final(self).wf(),
            final(self).table_map() == old(self).table_map().remove(id),
            final(self).next_value() == old(self).next_value(),
            final(self).issued_ids() == old(self).issued_ids(),
    {
        let ghost e0 = *self;
        let n = self.tables.len();
        for i in 0..n
            invariant
                *self == e0,
                e0 == *old(self),
                old(self).wf(),
                n == self.tables@.len(),
                forall|j: int| 0 <= j < i ==> (#[trigger] self.tables@[j]).0 != id,
        {
            if self.tables[i].0 == id {
                let ghost s = self.tables@;
                proof {
                    assert(s == e0.tables@);
                    lemma_kv_map_remove(s, i as int);
                }
                self.tables.remove(i);
                proof {
                    assert forall|a: int|
                        0 <= a < self.tables@.len() implies (#[trigger] self.tables@[a]).0.value()
                        < self.next_value() by {
                        let a2: int = if a < i { a } else { a + 1 };
                        assert(self.tables@[a] == s[a2]);
                    }
                }
                return ;
            }
        }
        proof {
            lemma_kv_map_domain(self.tables@, id);
            assert(!has_key(self.tables@, id)) by {
                assert(forall|j: int|
                    0 <= j < self.tables@.len() ==> (#[trigger] self.tables@[j]).0 != id);
            }
            assert(self.table_map().remove(id) =~= self.table_map());
        }
    }

    /// Record that `id` now lives in `table_id`, replacing any earlier entry.
    pub fn set_table_id(&mut self, id: EntityId, table_id: TableId)
        requires
            old(self).wf(),
            id.value() < old(self).next_value(),
        ensures
            final(self).wf(),
            final(self).table_map() == old(self).table_map().insert(id, table_id),
            final(self).next_value() == old(self).next_value(),
            final(self).issued_ids() == old(self).issued_ids(),
    {
        let ghost e0 = *self;
        let n = self.tables.len();
        for i in 0..n
            invariant
                *self == e0,
                e0 == *old(self),
                old(self).wf(),
                id.value() < old(self).next_value(),
                n == self.tables@.len(),
                forall|j: int| 0 <= j < i ==> (#[trigger] self.tables@[j]).0 != id,
        {
            if self.tables[i].0 == id {
                let ghost s = self.tables@;
                proof {
                    assert(s == e0.tables@);
                    lemma_kv_map_update(s, i as int, table_id);
                }
                self.tables[i] = (id, table_id);
                proof {
                    assert(self.tables@ =~= s.update(i as int, (s[i as int].0, table_id)));
                    assert forall|a: int|
                        0 <= a < self.tables@.len() implies (#[trigger] self.tables@[a]).0.value()
                        < self.next_value() by {
                        assert(s[a].0.value() < self.next_value());
                    }
                }
                return ;
            }
        }
        proof {
            lemma_kv_map_push(self.tables@, id, table_id);
            assert(!has_key(self.tables@, id)) by {
                assert(forall|j: int|
                    0 <= j < self.tables@.len() ==> (#[trigger] self.tables@[j]).0 != id);
            }
        }
        self.tables.push((id, table_id));
        proof {
            assert forall|a: int|
                0 <= a < self.tables@.len() implies (#[trigger] self.tables@[a]).0.value()
                < self.next_value() by {
                if a < self.tables@.len() - 1 {
                    assert(self.tables@[a] == old(self).tables@[a]);
                }
            }
        }
    }

    /// The table currently holding `id`, if the identity is live.
    pub fn table_id(&self, id: EntityId) -> (r: Option<TableId>)
        requires
            self.wf(),
        ensures
            r == if self.table_map().contains_key(id) {
                Some(self.table_map()[id])
            } else {
                None::<TableId>
            },
    {
        let n = self.tables.len();
        for i in 0..n
            invariant
                n == self.tables@.len(),
                self.wf(),
                forall|j: int| 0 <= j < i ==> (#[trigger] self.tables@[j]).0 != id,
        {
            if self.tables[i].0 == id {
                proof {
                    lemma_kv_map_get(self.tables@, i as int);
                }
                return Some(self.tables[i].1);
            }
        }
        proof {
            lemma_kv_map_domain(self.tables@, id);
            assert(!has_key(self.tables@, id)) by {
                assert(forall|j: int|
                    0 <= j < self.tables@.len() ==> (#[trigger] self.tables@[j]).0 != id);
            }
        }
        None
    }
}

impl Default for Entities {
    /// An allocator with no identity issued and nothing mapped.
    fn default() -> (r: Self)
        ensures
            r.wf(),
            r.next_value() == 0,
            r.table_map() == Map::<EntityId, TableId>::empty(),
            r.issued_ids() == Seq::<EntityId>::empty(),
    {
        Entities { next_id: 0, tables: Vec::new(), issued: Ghost(Seq::empty()) }
    }
}

/// Identities are issued in strictly increasing order and never repeat: for
/// any allocator state reached through this module's operations, the sequence
/// of identities handed out so far is strictly increasing, so no two spawns
/// ever return the same identity, deletions notwithstanding.
pub proof fn lemma_issued_strictly_increasing(e: Entities)
    requires
        e.wf(),
    ensures
        forall|i: int, j: int|
            0 <= i < j < e.issued_ids().len() ==> e.issued_ids()[i].value() < e.issued_ids()[j].value(),
        forall|i: int, j: int|
            0 <= i < j < e.issued_ids().len() ==> e.issued_ids()[i] != e.issued_ids()[j],
{
    assert forall|i: int, j: int| 0 <= i < j < e.issued_ids().len() implies e.issued_ids()[i]
        != e.issued_ids()[j] by {
        assert(e.issued_ids()[i].value() < e.issued_ids()[j].value());
    }
}

} // verus!
