use mellow_ecs::bundle::Bundle;
use mellow_ecs::entity::Entities;
use mellow_ecs::query::{Query, QueryTerm, TableFilter};
use mellow_ecs::store::{ItemType, Lock, Store, Stores};
use mellow_ecs::tables::Tables;

const PAIR: ItemType = ItemType { id: 10, size: 2 };
const BYTE: ItemType = ItemType { id: 11, size: 1 };

#[test]
fn allocator_issues_fresh_identities_and_tracks_tables() {
    let mut entities = Entities::default();
    let mut tables = Tables::default();
    let t0 = tables.create();
    let t1 = tables.create();

    let a = entities.allocate();
    let b = entities.allocate();
    assert!(a < b);
    assert_eq!(entities.table_id(a), None);

    entities.set_table_id(a, t0);
    entities.set_table_id(b, t1);
    assert_eq!(entities.table_id(a), Some(t0));
    assert_eq!(entities.table_id(b), Some(t1));

    entities.set_table_id(a, t1);
    assert_eq!(entities.table_id(a), Some(t1));

    entities.del(a);
    assert_eq!(entities.table_id(a), None);
    entities.del(a);
    assert_eq!(entities.table_id(b), Some(t1));
}

#[test]
fn store_writes_read_back_and_removal_compacts() {
    let mut store = Store::new(PAIR);
    assert!(store.get(0).is_none());

    store.set_capacity(3);
    store.write(0, &vec![1, 2]);
    store.write(1, &vec![3, 4]);
    store.write(2, &vec![5, 6]);
    assert_eq!(store.get(0), Some(vec![1, 2]));
    assert_eq!(store.get(1), Some(vec![3, 4]));
    assert_eq!(store.get(2), Some(vec![5, 6]));
    assert!(store.get(3).is_none());

    store.remove(0);
    assert_eq!(store.get(0), Some(vec![3, 4]));
    assert_eq!(store.get(1), Some(vec![5, 6]));

    store.set_capacity(2);
    assert_eq!(store.get(0), Some(vec![3, 4]));
}

#[test]
fn guard_counts_shared_holds_and_tracks_the_exclusive_hold() {
    let mut lock = Lock::new();
    assert!(!lock.is_read());
    assert!(!lock.is_written());

    lock.acquire_read();
    lock.acquire_read();
    assert!(lock.is_read());
    assert!(!lock.is_written());
    lock.release_read();
    assert!(lock.is_read());
    lock.release_read();
    assert!(!lock.is_read());

    lock.acquire_write();
    assert!(lock.is_written());
    assert!(!lock.is_read());
    lock.release_write();
    assert!(!lock.is_written());
}

#[test]
fn store_directory_routes_guards_by_component_type() {
    let mut stores = Stores::default();
    let sid = stores.create(BYTE);
    let other = stores.create(PAIR);
    assert_ne!(sid, other);

    stores.get_mut(sid).set_capacity(1);
    stores.get_mut(sid).write(0, &vec![42]);
    assert_eq!(stores.get(sid).get(0), Some(vec![42]));
    assert!(stores.get(other).get(0).is_none());

    stores.acquire_read(BYTE.id);
    stores.release_read(BYTE.id);
    stores.acquire_write(PAIR.id);
    stores.release_write(PAIR.id);
    stores.acquire_read(9999);
    stores.release_read(9999);
}

#[test]
fn tables_key_rows_by_entity_and_find_by_signature() {
    let mut entities = Entities::default();
    let mut stores = Stores::default();
    let mut tables = Tables::default();

    let tid = tables.create();
    let s_pair = stores.create(PAIR);
    let s_byte = stores.create(BYTE);
    {
        let table = tables.get_mut(tid);
        table.add_column(s_pair, PAIR);
        table.add_column(s_byte, BYTE);
    }

    assert_eq!(tables.with_type(&vec![PAIR, BYTE]), Some(tid));
    assert_eq!(tables.with_type(&vec![BYTE, PAIR]), None);
    assert_eq!(tables.with_type(&vec![PAIR]), None);

    let a = entities.allocate();
    let b = entities.allocate();
    {
        let table = tables.get_mut(tid);
        assert!(table.is_empty());
        assert_eq!(table.push(a), 0);
        assert_eq!(table.push(b), 1);
        assert_eq!(table.len(), 2);
        assert_eq!(table.entity_index(b), Some(1));
        assert_eq!(table.get(0), Some(a));
        assert_eq!(table.get(2), None);
        assert_eq!(table.column(&PAIR), Some(s_pair));
        assert_eq!(table.column_by_key(BYTE.id), Some(s_byte));
        assert!(table.has_column(&BYTE));
        assert_eq!(table.columns().len(), 2);
        table.remove(0);
        assert_eq!(table.len(), 1);
        assert_eq!(table.entity_index(a), None);
        assert_eq!(table.entity_index(b), Some(0));
    }
}

#[test]
fn bundles_carry_types_and_values_in_order() {
    let mut bundle = Bundle::new();
    assert_eq!(bundle.len(), 0);
    bundle.push(PAIR, vec![7, 8]);
    bundle.push(BYTE, vec![9]);
    assert_eq!(bundle.len(), 2);
    assert_eq!(bundle.type_at(0), PAIR);
    assert_eq!(bundle.type_at(1), BYTE);
    assert_eq!(bundle.types().len(), 2);
    assert_eq!(bundle.value(0), &vec![7, 8]);
    assert_eq!(bundle.value(1), &vec![9]);
}

#[test]
fn out_of_range_removal_is_a_no_op() {
    let mut store = Store::new(PAIR);
    store.set_capacity(2);
    store.write(0, &vec![1, 2]);
    store.write(1, &vec![3, 4]);
    store.remove(5);
    assert_eq!(store.get(0), Some(vec![1, 2]));
    assert_eq!(store.get(1), Some(vec![3, 4]));
    assert!(store.get(2).is_none());
}

#[test]
fn dropping_a_table_keeps_other_handles_stable() {
    let mut stores = Stores::default();
    let mut tables = Tables::default();

    let t0 = tables.create();
    let s0 = stores.create(PAIR);
    tables.get_mut(t0).add_column(s0, PAIR);
    let t1 = tables.create();
    let s1 = stores.create(BYTE);
    tables.get_mut(t1).add_column(s1, BYTE);

    tables.drop(t0);
    assert_eq!(tables.len(), 2);
    assert_eq!(tables.get(t1).column(&BYTE), Some(s1));
    assert!(!tables.get(t0).has_column(&PAIR));
    assert_eq!(tables.with_type(&vec![PAIR]), None);
    assert_eq!(tables.with_type(&vec![BYTE]), Some(t1));

    stores.get_mut(s1).set_capacity(1);
    stores.get_mut(s1).write(0, &vec![7]);
    stores.drop(s0);
    assert_eq!(stores.get(s1).get(0), Some(vec![7]));
    assert!(stores.get(s0).get(0).is_none());
}

#[test]
fn exec_predicates_mirror_the_preconditions() {
    let mut bundle = Bundle::new();
    assert!(!bundle.contains_type(PAIR.id));
    bundle.push(PAIR, vec![1, 2]);
    assert!(bundle.contains_type(PAIR.id));
    assert!(!bundle.contains_type(BYTE.id));

    let mut q = Query::new();
    assert!(!q.requests(PAIR.id));
    q.add(QueryTerm { key: PAIR.id, writes: true, optional: false });
    assert!(q.requests(PAIR.id));
    assert!(!q.requests(BYTE.id));

    let entities = Entities::default();
    assert_eq!(entities.next_id(), 0);

    let mut stores = Stores::default();
    assert!(q.available(&stores));
    let _ = stores.create(PAIR);
    assert!(stores.read_available(PAIR.id));
    assert!(stores.write_available(PAIR.id));
    stores.acquire_read(PAIR.id);
    assert!(stores.read_available(PAIR.id));
    assert!(!stores.write_available(PAIR.id));
    assert!(!q.available(&stores));
    stores.release_read(PAIR.id);
    assert!(q.available(&stores));
    stores.acquire_write(PAIR.id);
    assert!(!stores.read_available(PAIR.id));
    stores.release_write(PAIR.id);
}

#[test]
fn table_filter_skips_empty_and_non_matching_tables() {
    let mut entities = Entities::default();
    let mut stores = Stores::default();
    let mut tables = Tables::default();

    // Table 0: right signature but empty.
    let t0 = tables.create();
    let s0 = stores.create(PAIR);
    tables.get_mut(t0).add_column(s0, PAIR);

    // Table 1: wrong signature, populated.
    let t1 = tables.create();
    let s1 = stores.create(BYTE);
    tables.get_mut(t1).add_column(s1, BYTE);
    let a = entities.allocate();
    tables.get_mut(t1).push(a);

    // Table 2: right signature, populated.
    let t2 = tables.create();
    let s2 = stores.create(PAIR);
    tables.get_mut(t2).add_column(s2, PAIR);
    let b = entities.allocate();
    tables.get_mut(t2).push(b);

    let mut q = Query::new();
    q.add(QueryTerm { key: PAIR.id, writes: false, optional: false });
    let mut filter = TableFilter::new(&q);
    assert_eq!(filter.next(&tables), Some(t2));
    assert_eq!(filter.next(&tables), None);
}
