//! Type-erased column stores, per-type access guards, and their directory.

use vstd::prelude::*;

use crate::kv::{has_key, keys_distinct, kv_map, lemma_kv_map_domain, lemma_kv_map_get,
    lemma_kv_map_push, lemma_kv_map_update};

verus! {

/// A runtime record of a component type: its identity and the size in bytes
/// of one value. The identity is the universal key wherever components are
/// matched; the host must use one identity per distinct component type.
#[derive(Clone, Copy, PartialEq, Eq, Structural, Hash, Debug)]
pub struct ItemType {
    /// The identity of the component type.
    pub id: u64,
    /// The size in bytes of one value of the type.
    pub size: usize,
}

/// An opaque handle to one column store, valid for its directory's lifetime.
#[derive(Clone, Copy, PartialEq, Eq, Structural, PartialOrd, Ord, Hash, Debug)]
pub struct StoreId(usize);

impl StoreId {
    /// The position of the store in its directory.
    pub closed spec fn value(self) -> nat {
        self.0 as nat
    }
}

/// Handles with the same position are the same handle.
pub proof fn lemma_store_id_value_injective(a: StoreId, b: StoreId)
    requires
        a.value() == b.value(),
    ensures
        a == b,
{
}

/// Distinct handles stand at distinct positions.
pub proof fn lemma_store_id_value_injective_contra(a: StoreId, b: StoreId)
    requires
        a != b,
    ensures
        a.value() != b.value(),
{
}

/// Copy a byte vector.
fn copy_bytes(src: &Vec<u8>) -> (r: Vec<u8>)
    ensures
        r@ == src@,
{
    let mut r: Vec<u8> = Vec::new();
    let n = src.len();
    for j in 0..n
        invariant
            n == src@.len(),
            r@ =~= src@.subrange(0, j as int),
    {
        r.push(src[j]);
    }
    proof {
        assert(r@ =~= src@);
    }
    r
}

/// A growable, type-erased array of slots, each holding the byte
/// representation of one value of the store's component type. The logical
/// length is not tracked here: it is the length of the owning table's row
/// index, and the capacity never falls below it and never shrinks.
pub struct Store {
    typ: ItemType,
    data: Vec<Vec<u8>>,
}

impl Store {
    /// The component type this store holds.
    pub closed spec fn item_type(self) -> ItemType {
        self.typ
    }

    /// How many slots are allocated.
    pub closed spec fn capacity(self) -> nat {
        self.data@.len()
    }

    /// The bytes in slot `i`.
    pub closed spec fn slot(self, i: int) -> Seq<u8> {
        self.data@[i]@
    }

    /// Every allocated slot holds exactly one value's worth of bytes.
    pub closed spec fn wf(self) -> bool {
        forall|i: int|
            0 <= i < self.data@.len() ==> (#[trigger] self.data@[i])@.len() == self.typ.size
    }

    /// An empty store for one component type.
    pub fn new(typ: ItemType) -> (r: Store)
        ensures
            r.wf(),
            r.item_type() == typ,
            r.capacity() == 0,
    {
        Store { typ, data: Vec::new() }
    }

    /// Grow the store to hold at least `cap` slots, never shrinking and
    /// leaving every existing slot unchanged. How far beyond `cap` the store
    /// grows is implementation latitude (an amortizing growth factor is
    /// admissible): the capacity is never observed externally, only its lower
    /// bounds matter.
    pub fn set_capacity(&mut self, cap: usize)
        requires
            old(self).wf(),
        ensures
            final(self).wf(),
            final(self).item_type() == old(self).item_type(),
            final(self).capacity() >= cap,
            final(self).capacity() >= old(self).capacity(),
            forall|i: int| 0 <= i < old(self).capacity() ==> final(self).slot(i) == old(self).slot(i),
    {
        while self.data.len() < cap
            invariant
                old(self).wf(),
                self.typ == old(self).typ,
                self.data@.len() >= old(self).data@.len(),
                self.data@.len() <= cap || self.data@.len() == old(self).data@.len(),
                forall|i: int|
                    0 <= i < old(self).data@.len() ==> (#[trigger] self.data@[i]) == old(self).data@[i],
                forall|i: int|
                    0 <= i < self.data@.len() ==> (#[trigger] self.data@[i])@.len() == self.typ.size,
            decreases cap - self.data.len(),
        {
            let fill: Vec<u8> = vec![0u8; self.typ.size];
            self.data.push(fill);
        }
    }

    /// A copy of the bytes in slot `idx`, or nothing when `idx` lies beyond
    /// the capacity.
    pub fn get(&self, idx: usize) -> (r: Option<Vec<u8>>)
        ensures
            r is Some <==> (idx as int) < self.capacity(),
            r matches Some(v) ==> v@ == self.slot(idx as int),
    {
        if idx < self.data.len() {
            Some(copy_bytes(&self.data[idx]))
        } else {
            None
        }
    }

    /// Store one value's bytes in slot `idx`, leaving every other slot
    /// unchanged.
    pub fn write(&mut self, idx: usize, bytes: &Vec<u8>)
        requires
            old(self).wf(),
            (idx as int) < old(self).capacity(),
            bytes@.len() == old(self).item_type().size,
        ensures
            final(self).wf(),
            final(self).item_type() == old(self).item_type(),
            final(self).capacity() == old(self).capacity(),
            final(self).slot(idx as int) == bytes@,
            forall|i: int|
                0 <= i < old(self).capacity() && i != idx ==> final(self).slot(i) == old(self).slot(
                    i,
                ),
    {
        self.data[idx] = copy_bytes(bytes);
        proof {
            assert(self.data@ =~= old(self).data@.update(idx as int, self.data@[idx as int]));
        }
    }

    /// Destruct the value in slot `idx` and compact: every slot after `idx`
    /// shifts one position toward it, so slot positions stay aligned with the
    /// owning table's row index once the row is removed there too. The last
    /// slot keeps a copy of the removed bytes; capacity does not change, and
    /// an `idx` beyond the capacity is silently ignored.
    pub fn remove(&mut self, idx: usize)
        requires
            old(self).wf(),
        ensures
            final(self).wf(),
            final(self).item_type() == old(self).item_type(),
            final(self).capacity() == old(self).capacity(),
            (idx as int) >= old(self).capacity() ==> forall|i: int|
                0 <= i < old(self).capacity() ==> final(self).slot(i) == old(self).slot(i),
            (idx as int) < old(self).capacity() ==> {
                &&& forall|i: int| 0 <= i < idx ==> final(self).slot(i) == old(self).slot(i)
                &&& forall|i: int|
                    idx <= i < old(self).capacity() - 1 ==> final(self).slot(i) == old(self).slot(
                        i + 1,
                    )
                &&& final(self).slot(old(self).capacity() - 1) == old(self).slot(idx as int)
            },
    {
        if idx < self.data.len() {
            let moved = self.data.remove(idx);
            self.data.push(moved);
            proof {
                let s0 = old(self).data@;
                let s1 = self.data@;
                assert(s1 =~= s0.remove(idx as int).push(s0[idx as int]));
                assert forall|i: int| 0 <= i < s1.len() implies (#[trigger] s1[i]) == if i < idx {
                    s0[i]
                } else if i < s0.len() - 1 {
                    s0[i + 1]
                } else {
                    s0[idx as int]
                } by {
                    if i < s1.len() - 1 {
                        assert(s1[i] == s0.remove(idx as int)[i]);
                    }
                }
            }
        }
    }
}

/// The per-component-type access guard: any number of shared holders, or one
/// exclusive holder, never both. Acquisition demands availability (the host's
/// scheduling discipline is what waits for it); release demands that the
/// corresponding mode is actually held.
#[derive(Clone, Copy, PartialEq, Eq, Structural, Debug)]
pub struct Lock {
    readers: usize,
    writer: bool,
}

impl Lock {
    /// How many shared holds are active.
    pub closed spec fn readers(self) -> nat {
        self.readers as nat
    }

    /// Whether an exclusive hold is active.
    pub closed spec fn is_writer(self) -> bool {
        self.writer
    }

    /// An exclusive hold never coexists with a shared hold.
    pub open spec fn wf(self) -> bool {
        self.is_writer() ==> self.readers() == 0
    }

    /// A shared acquisition is admissible: no exclusive hold is active.
    pub open spec fn can_acquire_read(self) -> bool {
        !self.is_writer() && self.readers() < usize::MAX
    }

    /// An exclusive acquisition is admissible: no hold of either mode is
    /// active.
    pub open spec fn can_acquire_write(self) -> bool {
        !self.is_writer() && self.readers() == 0
    }

    /// A guard with no hold active.
    pub fn new() -> (r: Lock)
        ensures
            r.wf(),
            r.readers() == 0,
            !r.is_writer(),
    {
        Lock { readers: 0, writer: false }
    }

    /// Whether any shared hold is active.
    pub fn is_read(&self) -> (r: bool)
        ensures
            r == (self.readers() > 0),
    {
        self.readers > 0
    }

    /// Whether the exclusive hold is active.
    pub fn is_written(&self) -> (r: bool)
        ensures
            r == self.is_writer(),
    {
        self.writer
    }

    /// Whether a shared acquisition is admissible right now.
    pub fn read_available(&self) -> (r: bool)
        ensures
            r == self.can_acquire_read(),
    {
        !self.writer && self.readers < usize::MAX
    }

    /// Whether an exclusive acquisition is admissible right now.
    pub fn write_available(&self) -> (r: bool)
        ensures
            r == self.can_acquire_write(),
    {
        !self.writer && self.readers == 0
    }

    /// Take one shared hold.
    pub fn acquire_read(&mut self)
        requires
            old(self).wf(),
            old(self).can_acquire_read(),
        ensures
            final(self).wf(),
            final(self).readers() == old(self).readers() + 1,
            !final(self).is_writer(),
    {
        self.readers = self.readers + 1;
    }

    /// Give back one shared hold.
    pub fn release_read(&mut self)
        requires
            old(self).wf(),
            old(self).readers() >= 1,
        ensures
            final(self).wf(),
            final(self).readers() == old(self).readers() - 1,
            !final(self).is_writer(),
    {
        self.readers = self.readers - 1;
    }

    /// Take the exclusive hold.
    pub fn acquire_write(&mut self)
        requires
            old(self).wf(),
            old(self).can_acquire_write(),
        ensures
            final(self).wf(),
            final(self).is_writer(),
            final(self).readers() == 0,
    {
        self.writer = true;
    }

    /// Give back the exclusive hold.
    pub fn release_write(&mut self)
        requires
            old(self).wf(),
            old(self).is_writer(),
        ensures
            final(self).wf(),
            !final(self).is_writer(),
            final(self).readers() == 0,
    {
        self.writer = false;
    }
}

/// Shared holders coexist: while one shared hold is active on a guard, a
/// further shared acquisition is still admissible, so two queries asking only
/// shared access to the same component type may run concurrently.
pub proof fn lemma_shared_holds_compatible(lock: Lock)
    requires
        lock.wf(),
        1 <= lock.readers() < usize::MAX,
    ensures
        lock.can_acquire_read(),
{
}

/// An exclusive hold excludes every other hold: while it is active, neither a
/// shared nor another exclusive acquisition is admissible, so no second query
/// can observe the guarded column mid-write.
pub proof fn lemma_exclusive_hold_excludes(lock: Lock)
    requires
        lock.wf(),
        lock.is_writer(),
    ensures
        !lock.can_acquire_read(),
        !lock.can_acquire_write(),
        lock.readers() == 0,
{
}

/// Owns every column store, hands out opaque handles, and routes guard
/// acquisition and release by component-type identity.
pub struct Stores {
    stores: Vec<Store>,
    locks: Vec<(u64, Lock)>,
}

impl Stores {
    /// The stores in creation order.
    pub closed spec fn store_seq(self) -> Seq<Store> {
        self.stores@
    }

    /// The guard of each component type that ever got a store.
    pub closed spec fn lock_map(self) -> Map<u64, Lock> {
        kv_map(self.locks@)
    }

    /// Every store and every guard is well-formed.
    pub closed spec fn wf(self) -> bool {
        &&& forall|i: int| 0 <= i < self.stores@.len() ==> (#[trigger] self.stores@[i]).wf()
        &&& keys_distinct(self.locks@)
        &&& forall|i: int| 0 <= i < self.locks@.len() ==> (#[trigger] self.locks@[i]).1.wf()
    }

    /// In a well-formed directory every store is well-formed.
    pub proof fn lemma_store_wf(self, i: int)
        requires
            self.wf(),
            0 <= i < self.store_seq().len(),
        ensures
            self.store_seq()[i].wf(),
    {
    }

    /// A shared acquisition for type `t` is admissible.
    pub open spec fn can_read(self, t: u64) -> bool {
        self.lock_map().contains_key(t) ==> self.lock_map()[t].can_acquire_read()
    }

    /// An exclusive acquisition for type `t` is admissible.
    pub open spec fn can_write(self, t: u64) -> bool {
        self.lock_map().contains_key(t) ==> self.lock_map()[t].can_acquire_write()
    }

    /// A shared hold on type `t` is active (vacuously, where no guard exists).
    pub open spec fn read_held(self, t: u64) -> bool {
        self.lock_map().contains_key(t) ==> self.lock_map()[t].readers() >= 1
    }

    /// The exclusive hold on type `t` is active (vacuously, where no guard
    /// exists).
    pub open spec fn write_held(self, t: u64) -> bool {
        self.lock_map().contains_key(t) ==> self.lock_map()[t].is_writer()
    }

    /// Allocate a fresh, empty store for one component type, and make sure
    /// the type has an access guard.
    pub fn create(&mut self, typ: ItemType) -> (r: StoreId)
        requires
            old(self).wf(),
        ensures
            final(self).wf(),
            r.value() == old(self).store_seq().len(),
            final(self).store_seq().len() == old(self).store_seq().len() + 1,
            forall|i: int|
                0 <= i < old(self).store_seq().len() ==> final(self).store_seq()[i] == old(
                    self,
                ).store_seq()[i],
            final(self).store_seq().last().wf(),
            final(self).store_seq().last().item_type() == typ,
            final(self).store_seq().last().capacity() == 0,
            final(self).lock_map().contains_key(typ.id),
            forall|t: u64|
                t != typ.id ==> final(self).lock_map().contains_key(t) == old(
                    self,
                ).lock_map().contains_key(t),
            forall|t: u64|
                t != typ.id && old(self).lock_map().contains_key(t) ==> final(self).lock_map()[t]
                    == old(self).lock_map()[t],
            old(self).lock_map().contains_key(typ.id) ==> final(self).lock_map()[typ.id] == old(
                self,
            ).lock_map()[typ.id],
            !old(self).lock_map().contains_key(typ.id) ==> final(self).lock_map()[typ.id].readers()
                == 0 && !final(self).lock_map()[typ.id].is_writer(),
    {
        let id = StoreId(self.stores.len());
        self.stores.push(Store::new(typ));
        proof {
            assert forall|j: int| 0 <= j < self.stores@.len() implies (#[trigger] self.stores@[j]).wf()
            by {
                if j < self.stores@.len() - 1 {
                    assert(self.stores@[j] == old(self).stores@[j]);
                }
            }
        }
        if !self.has_lock(typ.id) {
            let l = Lock::new();
            let ghost locks0 = self.locks@;
            proof {
                lemma_kv_map_domain(locks0, typ.id);
                lemma_kv_map_push(locks0, typ.id, l);
            }
            self.locks.push((typ.id, l));
            proof {
                assert forall|j: int|
                    0 <= j < self.locks@.len() implies (#[trigger] self.locks@[j]).1.wf() by {
                    if j < self.locks@.len() - 1 {
                        assert(self.locks@[j] == locks0[j]);
                    }
                }
            }
        }
        id
    }

    /// Whether a guard for type `t` exists, and at which position.
    fn find_lock(&self, t: u64) -> (r: Option<usize>)
        requires
            self.wf(),
        ensures
            r matches Some(i) ==> (i as int) < self.locks@.len() && self.locks@[i as int].0 == t,
            r is None ==> !self.lock_map().contains_key(t),
    {
        let n = self.locks.len();
        for i in 0..n
            invariant
                self.wf(),
                n == self.locks@.len(),
                forall|j: int| 0 <= j < i ==> (#[trigger] self.locks@[j]).0 != t,
        {
            if self.locks[i].0 == t {
                return Some(i);
            }
        }
        proof {
            lemma_kv_map_domain(self.locks@, t);
            assert(!has_key(self.locks@, t)) by {
                assert(forall|j: int| 0 <= j < self.locks@.len() ==> (#[trigger] self.locks@[j]).0 != t);
            }
        }
        None
    }

    /// Whether a guard for type `t` exists.
    fn has_lock(&self, t: u64) -> (r: bool)
        requires
            self.wf(),
        ensures
            r == self.lock_map().contains_key(t),
    {
        let found = self.find_lock(t);
        proof {
            lemma_kv_map_domain(self.locks@, t);
            if found matches Some(i) {
                assert(has_key(self.locks@, t));
            }
        }
        found.is_some()
    }

    /// Drop the store behind `id`: its slot is emptied in place — the
    /// component type stays recorded, the buffer is given up — and never
    /// shifted, so every other handle stays valid and names the same store,
    /// and no handle is ever reused for a different store. Rarely used, never
    /// by the normal spawn/delete/query flow.
    pub fn drop(&mut self, id: StoreId)
        requires
            old(self).wf(),
            id.value() < old(self).store_seq().len(),
        ensures
            final(self).wf(),
            final(self).store_seq().len() == old(self).store_seq().len(),
            forall|s: int|
                0 <= s < old(self).store_seq().len() && s != id.value()
                    ==> #[trigger] final(self).store_seq()[s] == old(self).store_seq()[s],
            final(self).store_seq()[id.value() as int].item_type() == old(self).store_seq()[id.value() as int].item_type(),
            final(self).store_seq()[id.value() as int].capacity() == 0,
            final(self).lock_map() == old(self).lock_map(),
    {
        let StoreId(i) = id;
        let typ = self.stores[i].typ;
        self.stores[i] = Store::new(typ);
        proof {
            assert forall|j: int| 0 <= j < self.stores@.len() implies (#[trigger] self.stores@[j]).wf()
            by {
                if j != i {
                    assert(self.stores@[j] == old(self).stores@[j]);
                }
            }
        }
    }

    /// The store behind `id`.
    pub fn get(&self, id: StoreId) -> (r: &Store)
        requires
            self.wf(),
            id.value() < self.store_seq().len(),
        ensures
            *r == self.store_seq()[id.value() as int],
    {
        let StoreId(i) = id;
        &self.stores[i]
    }

    /// The store behind `id`, for writing.
    pub fn get_mut(&mut self, id: StoreId) -> (r: &mut Store)
        requires
            old(self).wf(),
            id.value() < old(self).store_seq().len(),
        ensures
            *r == old(self).store_seq()[id.value() as int],
            final(self).store_seq() == old(self).store_seq().update(
                id.value() as int,
                *final(r),
            ),
            final(self).lock_map() == old(self).lock_map(),
            final(r).wf() ==> final(self).wf(),
    {
        let StoreId(i) = id;
        &mut self.stores[i]
    }

    /// Whether a shared acquisition for type `t` would be admissible right
    /// now (vacuously, where no guard exists).
    pub fn read_available(&self, type_id: u64) -> (r: bool)
        requires
            self.wf(),
        ensures
            r == self.can_read(type_id),
    {
        match self.find_lock(type_id) {
            Some(i) => {
                proof {
                    lemma_kv_map_get(self.locks@, i as int);
                }
                self.locks[i].1.read_available()
            },
            None => true,
        }
    }

    /// Whether an exclusive acquisition for type `t` would be admissible
    /// right now (vacuously, where no guard exists).
    pub fn write_available(&self, type_id: u64) -> (r: bool)
        requires
            self.wf(),
        ensures
            r == self.can_write(type_id),
    {
        match self.find_lock(type_id) {
            Some(i) => {
                proof {
                    lemma_kv_map_get(self.locks@, i as int);
                }
                self.locks[i].1.write_available()
            },
            None => true,
        }
    }

    /// Take one shared hold on type `t`'s guard; without a guard for `t` this
    /// is a no-op.
    pub fn acquire_read(&mut self, type_id: u64)
        requires
            old(self).wf(),
            old(self).can_read(type_id),
        ensures
            final(self).wf(),
            final(self).store_seq() == old(self).store_seq(),
            final(self).lock_map().dom() == old(self).lock_map().dom(),
            forall|t: u64|
                t != type_id && old(self).lock_map().contains_key(t) ==> final(self).lock_map()[t]
                    == old(self).lock_map()[t],
            old(self).lock_map().contains_key(type_id) ==> {
                &&& final(self).lock_map()[type_id].readers() == old(
                    self,
                ).lock_map()[type_id].readers() + 1
                &&& !final(self).lock_map()[type_id].is_writer()
            },
    {
        if let Some(i) = self.find_lock(type_id) {
            proof {
                lemma_kv_map_get(self.locks@, i as int);
                assert(has_key(self.locks@, type_id));
                lemma_kv_map_domain(self.locks@, type_id);
            }
            let k = self.locks[i].0;
            let mut l = self.locks[i].1;
            proof {
                lemma_kv_map_update(self.locks@, i as int, l);
            }
            l.acquire_read();
            let ghost s = self.locks@;
            self.locks[i] = (k, l);
            proof {
                assert(self.locks@ =~= s.update(i as int, (s[i as int].0, l)));
                lemma_kv_map_update(s, i as int, l);
                self.lemma_lock_entry_wf_all(s, i as int, l);
            }
        }
    }

    /// Give back one shared hold on type `t`'s guard; without a guard for `t`
    /// this is a no-op.
    pub fn release_read(&mut self, type_id: u64)
        requires
            old(self).wf(),
            old(self).read_held(type_id),
        ensures
            final(self).wf(),
            final(self).store_seq() == old(self).store_seq(),
            final(self).lock_map().dom() == old(self).lock_map().dom(),
            forall|t: u64|
                t != type_id && old(self).lock_map().contains_key(t) ==> final(self).lock_map()[t]
                    == old(self).lock_map()[t],
            old(self).lock_map().contains_key(type_id) ==> {
                &&& final(self).lock_map()[type_id].readers() == old(
                    self,
                ).lock_map()[type_id].readers() - 1
                &&& !final(self).lock_map()[type_id].is_writer()
            },
    {
        if let Some(i) = self.find_lock(type_id) {
            proof {
                lemma_kv_map_get(self.locks@, i as int);
                assert(has_key(self.locks@, type_id));
                lemma_kv_map_domain(self.locks@, type_id);
            }
            let k = self.locks[i].0;
            let mut l = self.locks[i].1;
            l.release_read();
            let ghost s = self.locks@;
            self.locks[i] = (k, l);
            proof {
                assert(self.locks@ =~= s.update(i as int, (s[i as int].0, l)));
                lemma_kv_map_update(s, i as int, l);
                self.lemma_lock_entry_wf_all(s, i as int, l);
            }
        }
    }

    /// Take the exclusive hold on type `t`'s guard; without a guard for `t`
    /// this is a no-op.
    pub fn acquire_write(&mut self, type_id: u64)
        requires
            old(self).wf(),
            old(self).can_write(type_id),
        ensures
            final(self).wf(),
            final(self).store_seq() == old(self).store_seq(),
            final(self).lock_map().dom() == old(self).lock_map().dom(),
            forall|t: u64|
                t != type_id && old(self).lock_map().contains_key(t) ==> final(self).lock_map()[t]
                    == old(self).lock_map()[t],
            old(self).lock_map().contains_key(type_id) ==> {
                &&& final(self).lock_map()[type_id].is_writer()
                &&& final(self).lock_map()[type_id].readers() == 0
            },
    {
        if let Some(i) = self.find_lock(type_id) {
            proof {
                lemma_kv_map_get(self.locks@, i as int);
                assert(has_key(self.locks@, type_id));
                lemma_kv_map_domain(self.locks@, type_id);
            }
            let k = self.locks[i].0;
            let mut l = self.locks[i].1;
            l.acquire_write();
            let ghost s = self.locks@;
            self.locks[i] = (k, l);
            proof {
                assert(self.locks@ =~= s.update(i as int, (s[i as int].0, l)));
                lemma_kv_map_update(s, i as int, l);
                self.lemma_lock_entry_wf_all(s, i as int, l);
            }
        }
    }

    /// Give back the exclusive hold on type `t`'s guard; without a guard for
    /// `t` this is a no-op.
    pub fn release_write(&mut self, type_id: u64)
        requires
            old(self).wf(),
            old(self).write_held(type_id),
        ensures
            final(self).wf(),
            final(self).store_seq() == old(self).store_seq(),
            final(self).lock_map().dom() == old(self).lock_map().dom(),
            forall|t: u64|
                t != type_id && old(self).lock_map().contains_key(t) ==> final(self).lock_map()[t]
                    == old(self).lock_map()[t],
            old(self).lock_map().contains_key(type_id) ==> {
                &&& !final(self).lock_map()[type_id].is_writer()
                &&& final(self).lock_map()[type_id].readers() == 0
            },
    {
        if let Some(i) = self.find_lock(type_id) {
            proof {
                lemma_kv_map_get(self.locks@, i as int);
                assert(has_key(self.locks@, type_id));
                lemma_kv_map_domain(self.locks@, type_id);
            }
            let k = self.locks[i].0;
            let mut l = self.locks[i].1;
            l.release_write();
            let ghost s = self.locks@;
            self.locks[i] = (k, l);
            proof {
                assert(self.locks@ =~= s.update(i as int, (s[i as int].0, l)));
                lemma_kv_map_update(s, i as int, l);
                self.lemma_lock_entry_wf_all(s, i as int, l);
            }
        }
    }

    /// After overwriting the guard at position `i` with a well-formed one,
    /// every guard entry is still well-formed.
    proof fn lemma_lock_entry_wf_all(self, s: Seq<(u64, Lock)>, i: int, l: Lock)
        requires
            0 <= i < s.len(),
            forall|j: int| 0 <= j < s.len() ==> (#[trigger] s[j]).1.wf(),
            l.wf(),
            self.locks@ == s.update(i, (s[i].0, l)),
        ensures
            forall|j: int| 0 <= j < self.locks@.len() ==> (#[trigger] self.locks@[j]).1.wf(),
    {
        assert forall|j: int| 0 <= j < self.locks@.len() implies (#[trigger] self.locks@[j]).1.wf()
        by {
            if j != i {
                assert(self.locks@[j] == s[j]);
            }
        }
    }
}

impl Default for Stores {
    /// A directory with no store and no guard.
    fn default() -> (r: Self)
        ensures
            r.wf(),
            r.store_seq() == Seq::<Store>::empty(),
            r.lock_map() == Map::<u64, Lock>::empty(),
    {
        Stores { stores: Vec::new(), locks: Vec::new() }
    }
}

} // verus!
