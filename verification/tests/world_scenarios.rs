use mellow_ecs::bundle::Bundle;
use mellow_ecs::query::{Query, QueryTerm};
use mellow_ecs::store::ItemType;
use mellow_ecs::world::World;

const POSITION: ItemType = ItemType { id: 1, size: 3 };
const TAG: ItemType = ItemType { id: 2, size: 1 };
const IMPORTANT: ItemType = ItemType { id: 3, size: 0 };

const RED: u8 = 0;
const GREEN: u8 = 1;

fn position_bundle(x: u8, y: u8, z: u8, tag: u8) -> Bundle {
    let mut b = Bundle::new();
    b.push(POSITION, vec![x, y, z]);
    b.push(TAG, vec![tag]);
    b
}

fn read_term(typ: ItemType) -> QueryTerm {
    QueryTerm { key: typ.id, writes: false, optional: false }
}

fn optional_term(typ: ItemType) -> QueryTerm {
    QueryTerm { key: typ.id, writes: false, optional: true }
}

fn shape(terms: &[QueryTerm]) -> Query {
    let mut q = Query::new();
    for t in terms {
        q.add(*t);
    }
    q
}

fn collect_rows(
    world: &mut World,
    terms: &[QueryTerm],
) -> Vec<(mellow_ecs::entity::EntityId, Vec<Option<Vec<u8>>>)> {
    let q = shape(terms);
    let mut query = world.query(&q);
    let mut rows = Vec::new();
    loop {
        match query.next(world.tables(), world.stores()) {
            Some(row) => rows.push(row),
            None => break,
        }
    }
    world.release_query(query);
    rows
}

#[test]
fn spawned_identities_strictly_increase() {
    let mut world = World::default();
    let a = world.spawn(position_bundle(1, 0, 0, RED));
    let b = world.spawn(position_bundle(0, 1, 0, RED));
    let c = world.spawn({
        let mut b = Bundle::new();
        b.push(TAG, vec![GREEN]);
        b
    });
    assert!(a < b);
    assert!(b < c);
    world.del(b);
    let d = world.spawn(position_bundle(7, 7, 7, GREEN));
    assert!(c < d);
    assert_ne!(d, b);
}

#[test]
fn spawn_then_query_exact_yields_one_matching_row() {
    let mut world = World::default();
    let id = world.spawn(position_bundle(4, 5, 6, GREEN));
    let rows = collect_rows(&mut world, &[read_term(POSITION), read_term(TAG)]);
    assert_eq!(rows.len(), 1);
    assert_eq!(rows[0].0, id);
    assert_eq!(rows[0].1.len(), 2);
    assert_eq!(rows[0].1[0], Some(vec![4, 5, 6]));
    assert_eq!(rows[0].1[1], Some(vec![GREEN]));
}

#[test]
fn delete_removes_entity_from_every_query() {
    let mut world = World::default();
    let a = world.spawn(position_bundle(1, 0, 0, RED));
    let b = world.spawn(position_bundle(0, 1, 0, RED));
    world.del(a);

    let rows = collect_rows(&mut world, &[read_term(POSITION)]);
    assert_eq!(rows.len(), 1);
    assert_eq!(rows[0].0, b);

    let tag_rows = collect_rows(&mut world, &[read_term(TAG)]);
    assert_eq!(tag_rows.len(), 1);
    assert_eq!(tag_rows[0].0, b);

    let q = shape(&[read_term(POSITION)]);
    let mut one = world.query_entity(&q, a);
    assert!(one.next(world.tables(), world.stores()).is_none());
    world.release_entity_query(one);
}

#[test]
fn deleting_unknown_identity_is_a_no_op() {
    let mut world = World::default();
    let a = world.spawn(position_bundle(1, 2, 3, RED));
    world.del(a);
    world.del(a);
    let rows = collect_rows(&mut world, &[read_term(POSITION)]);
    assert_eq!(rows.len(), 0);
}

#[test]
fn deletes_and_spawns_keep_rows_aligned() {
    let mut world = World::default();
    let a = world.spawn(position_bundle(1, 1, 1, RED));
    let b = world.spawn(position_bundle(2, 2, 2, RED));
    let c = world.spawn(position_bundle(3, 3, 3, RED));
    world.del(b);

    let rows = collect_rows(&mut world, &[read_term(POSITION), read_term(TAG)]);
    assert_eq!(rows.len(), 2);
    assert_eq!(rows[0].0, a);
    assert_eq!(rows[0].1[0], Some(vec![1, 1, 1]));
    assert_eq!(rows[1].0, c);
    assert_eq!(rows[1].1[0], Some(vec![3, 3, 3]));

    let d = world.spawn(position_bundle(4, 4, 4, GREEN));
    let rows = collect_rows(&mut world, &[read_term(POSITION)]);
    assert_eq!(rows.len(), 3);
    assert_eq!(rows[2].0, d);
    assert_eq!(rows[2].1[0], Some(vec![4, 4, 4]));
    assert_eq!(world.tables().len(), 1);
}

#[test]
fn optional_type_never_excludes_and_marks_missing() {
    let mut world = World::default();
    let plain = world.spawn(position_bundle(9, 9, 9, RED));
    let marked = world.spawn({
        let mut b = Bundle::new();
        b.push(POSITION, vec![8, 8, 8]);
        b.push(TAG, vec![GREEN]);
        b.push(IMPORTANT, Vec::new());
        b
    });

    let rows = collect_rows(&mut world, &[read_term(TAG), optional_term(IMPORTANT)]);
    assert_eq!(rows.len(), 2);
    assert_eq!(rows[0].0, plain);
    assert_eq!(rows[0].1[1], None);
    assert_eq!(rows[1].0, marked);
    assert_eq!(rows[1].1[1], Some(Vec::new()));

    let required = collect_rows(&mut world, &[read_term(IMPORTANT)]);
    assert_eq!(required.len(), 1);
    assert_eq!(required[0].0, marked);
}

#[test]
fn scenario_three_entities_and_a_delete() {
    let mut world = World::default();
    let _a = world.spawn(position_bundle(1, 0, 0, RED));
    let _b = world.spawn(position_bundle(0, 1, 0, RED));
    let c = world.spawn({
        let mut b = Bundle::new();
        b.push(POSITION, vec![0, 0, 1]);
        b.push(TAG, vec![GREEN]);
        b.push(IMPORTANT, Vec::new());
        b
    });

    let positions = collect_rows(&mut world, &[read_term(POSITION)]);
    assert_eq!(positions.len(), 3);

    let tags = collect_rows(&mut world, &[read_term(TAG), optional_term(IMPORTANT)]);
    assert_eq!(tags.len(), 3);
    let with_important: Vec<_> = tags.iter().filter(|row| row.1[1].is_some()).collect();
    assert_eq!(with_important.len(), 1);
    assert_eq!(with_important[0].0, c);

    world.del(c);
    let important = collect_rows(&mut world, &[read_term(IMPORTANT)]);
    assert_eq!(important.len(), 0);
    let positions = collect_rows(&mut world, &[read_term(POSITION)]);
    assert_eq!(positions.len(), 2);
}

#[test]
fn query_entity_yields_the_one_row() {
    let mut world = World::default();
    let a = world.spawn(position_bundle(1, 2, 3, RED));
    let b = world.spawn(position_bundle(4, 5, 6, GREEN));

    let q = shape(&[read_term(POSITION), optional_term(IMPORTANT)]);
    let mut one = world.query_entity(&q, b);
    let vals = one.next(world.tables(), world.stores()).expect("entity row");
    assert_eq!(vals[0], Some(vec![4, 5, 6]));
    assert_eq!(vals[1], None);
    assert!(one.next(world.tables(), world.stores()).is_none());
    world.release_entity_query(one);

    let q2 = shape(&[read_term(IMPORTANT)]);
    let mut none = world.query_entity(&q2, a);
    assert!(none.next(world.tables(), world.stores()).is_none());
    world.release_entity_query(none);
}

#[test]
fn archetypes_key_on_the_exact_ordered_type_list() {
    let mut world = World::default();
    let _ = world.spawn(position_bundle(1, 1, 1, RED));
    let _ = world.spawn(position_bundle(2, 2, 2, RED));
    assert_eq!(world.tables().len(), 1);

    let mut reversed = Bundle::new();
    reversed.push(TAG, vec![GREEN]);
    reversed.push(POSITION, vec![3, 3, 3]);
    let _ = world.spawn(reversed);
    assert_eq!(world.tables().len(), 2);

    let rows = collect_rows(&mut world, &[read_term(POSITION)]);
    assert_eq!(rows.len(), 3);
}

#[test]
fn shared_queries_coexist_and_release_restores_the_guards() {
    let mut world = World::default();
    let _ = world.spawn(position_bundle(1, 0, 0, RED));

    let q = shape(&[read_term(POSITION)]);
    let mut first = world.query(&q);
    let mut second = world.query(&q);
    assert!(first.next(world.tables(), world.stores()).is_some());
    assert!(second.next(world.tables(), world.stores()).is_some());
    world.release_query(first);
    world.release_query(second);

    let exclusive = shape(&[QueryTerm { key: POSITION.id, writes: true, optional: false }]);
    let mut writer = world.query(&exclusive);
    assert!(writer.next(world.tables(), world.stores()).is_some());
    world.release_query(writer);
}
