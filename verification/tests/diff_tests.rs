use replication::component::{Component, ComponentUnit, EntityData, Value};
use replication::stream::WorldStream;
use replication::diff::{WorldChange, WorldDiff};
use replication::filter::{ArchetypeFilter, ComponentFilter, KeyRule, WorldStreamFilter};
use replication::ids::EntityId;
use replication::world::World;

fn comp(index: u32) -> Component {
    Component { index, extended: true }
}

fn local_comp(index: u32) -> Component {
    Component { index, extended: false }
}

fn data_of(units: &[(Component, Value)]) -> EntityData {
    let mut d = EntityData::new();
    for (c, v) in units {
        d.set_unit(ComponentUnit::new(*c, *v));
    }
    d
}

fn all_filter() -> WorldStreamFilter {
    WorldStreamFilter::new(ArchetypeFilter::all(), ComponentFilter::all())
}

#[test]
fn builders_append_changes_in_order() {
    let id = EntityId { id0: 7, id1: 9 };
    let diff = WorldDiff::new()
        .set(id, comp(1), Value::I64(5))
        .add_component(id, comp(2), Value::Bool(true))
        .remove_component(id, comp(3))
        .despawn(vec![EntityId { id0: 1, id1: 0 }]);
    assert_eq!(diff.changes.len(), 4);
    assert!(diff.changes[0].is_set());
    assert!(!diff.changes[0].is_remove_components());
    assert!(matches!(diff.changes[1], WorldChange::AddComponents(_, _)));
    assert!(diff.changes[2].is_remove_components());
    assert!(matches!(diff.changes[3], WorldChange::Despawn(d) if d == EntityId { id0: 1, id1: 0 }));
    assert!(!diff.is_empty());
    assert!(WorldDiff::new().is_empty());
}

#[test]
fn spawn_and_read_back() {
    let mut world = World::new();
    let id = world.spawn(data_of(&[(comp(1), Value::I64(42))]));
    assert!(world.has_entity(id));
    let unit = world.get_unit(id, comp(1)).unwrap();
    assert_eq!(unit.value, Value::I64(42));
    assert_eq!(world.get_unit(id, comp(2)), None);
    let ids = world.entity_ids();
    assert_eq!(ids, vec![id]);
}

#[test]
fn mirrored_spawn_collision_is_skipped() {
    let mut world = World::new();
    let id = EntityId { id0: 5, id1: 6 };
    assert!(world.spawn_mirrored(id, data_of(&[(comp(1), Value::I64(1))])));
    let v_before = world.version();
    assert!(!world.spawn_mirrored(id, data_of(&[(comp(1), Value::I64(2))])));
    // the collision left the world untouched
    assert_eq!(world.version(), v_before);
    assert_eq!(world.get_unit(id, comp(1)).unwrap().value, Value::I64(1));
}

#[test]
fn apply_spawn_despawn_revert_round_trip() {
    let mut world = World::new();
    let id = EntityId { id0: 11, id1: 0 };
    world.spawn_mirrored(id, data_of(&[(comp(1), Value::I64(10)), (comp(2), Value::Bool(true))]));

    let diff = WorldDiff::new().despawn(vec![id]);
    let revert = diff.apply(&mut world, EntityData::new(), true).unwrap();
    assert!(!world.has_entity(id));

    let no_more = revert.apply(&mut world, EntityData::new(), false);
    assert!(no_more.is_none());
    assert!(world.has_entity(id));
    assert_eq!(world.get_unit(id, comp(1)).unwrap().value, Value::I64(10));
    assert_eq!(world.get_unit(id, comp(2)).unwrap().value, Value::Bool(true));
}

#[test]
fn revert_of_chained_spawn_and_set() {
    // P2's hardest shape: a spawn followed by a set of the spawned entity,
    // inside one diff.
    let mut world = World::new();
    let id = EntityId { id0: 21, id1: 0 };
    let diff = WorldDiff {
        changes: vec![
            WorldChange::Spawn(Some(id), data_of(&[(comp(1), Value::I64(1))])),
            WorldChange::SetValue(id, ComponentUnit::new(comp(1), Value::I64(2))),
        ],
    };
    let revert = diff.apply(&mut world, EntityData::new(), true).unwrap();
    assert!(world.has_entity(id));
    assert_eq!(world.get_unit(id, comp(1)).unwrap().value, Value::I64(2));
    // the revert holds the inverses in reverse order: first undo the set,
    // then despawn
    assert_eq!(revert.changes.len(), 2);
    assert!(revert.changes[0].is_set());
    assert!(matches!(revert.changes[1], WorldChange::Despawn(d) if d == id));

    revert.apply(&mut world, EntityData::new(), false);
    assert!(!world.has_entity(id));
}

#[test]
fn revert_of_add_and_remove() {
    let mut world = World::new();
    let id = EntityId { id0: 3, id1: 4 };
    world.spawn_mirrored(id, data_of(&[(comp(1), Value::I64(1))]));

    let diff = WorldDiff::new()
        .add_component(id, comp(2), Value::U64(7))
        .remove_component(id, comp(1));
    let revert = diff.apply(&mut world, EntityData::new(), true).unwrap();
    assert_eq!(world.get_unit(id, comp(2)).unwrap().value, Value::U64(7));
    assert!(world.get_unit(id, comp(1)).is_none());

    revert.apply(&mut world, EntityData::new(), false);
    assert_eq!(world.get_unit(id, comp(1)).unwrap().value, Value::I64(1));
    assert!(world.get_unit(id, comp(2)).is_none());
}

#[test]
fn soft_failure_set_is_skipped_and_rest_applies() {
    // P8: a Set aimed at a missing entity yields no revert entry and does
    // not abort the remaining changes of the same diff.
    let mut world = World::new();
    let missing = EntityId { id0: 99, id1: 99 };
    let id = EntityId { id0: 1, id1: 2 };
    let diff = WorldDiff {
        changes: vec![
            WorldChange::SetValue(missing, ComponentUnit::new(comp(1), Value::I64(5))),
            WorldChange::Spawn(Some(id), data_of(&[(comp(1), Value::I64(8))])),
        ],
    };
    let revert = diff.apply(&mut world, EntityData::new(), true).unwrap();
    // the failed set contributed nothing to the revert; the spawn did
    assert_eq!(revert.changes.len(), 1);
    assert!(matches!(revert.changes[0], WorldChange::Despawn(d) if d == id));
    // the change after the failure was applied
    assert_eq!(world.get_unit(id, comp(1)).unwrap().value, Value::I64(8));
    assert!(!world.has_entity(missing));
}

#[test]
fn set_bumps_content_version() {
    let mut world = World::new();
    let id = world.spawn(data_of(&[(comp(1), Value::I64(0))]));
    let v1 = world.get_component_content_version(id, comp(1)).unwrap();
    world.set_unit_at(id, ComponentUnit::new(comp(1), Value::I64(1)));
    let v2 = world.get_component_content_version(id, comp(1)).unwrap();
    assert!(v2 > v1);
}

fn visible_state(filter: &WorldStreamFilter, world: &World) -> Vec<(EntityId, Vec<(Component, Value)>)> {
    let mut ids = filter.all_entities(world);
    ids.sort();
    ids.into_iter()
        .map(|id| {
            let mut units: Vec<(Component, Value)> = filter
                .read_entity_components(world, id)
                .into_iter()
                .map(|u| (u.component, u.value))
                .collect();
            units.sort_by_key(|(c, _)| c.index);
            (id, units)
        })
        .collect()
}

#[test]
fn from_a_to_b_round_trip_unfiltered() {
    // P1 on concrete worlds: applying the computed diff to `from` makes it
    // observably equal to `to`.
    let filter = all_filter();
    let mut from = World::new();
    let keep = EntityId { id0: 1, id1: 0 };
    let gone = EntityId { id0: 2, id1: 0 };
    from.spawn_mirrored(keep, data_of(&[(comp(1), Value::I64(1)), (comp(2), Value::Bool(false))]));
    from.spawn_mirrored(gone, data_of(&[(comp(1), Value::I64(9))]));

    let mut to = World::new();
    let born = EntityId { id0: 3, id1: 0 };
    to.spawn_mirrored(keep, data_of(&[(comp(1), Value::I64(1)), (comp(3), Value::U64(4))]));
    // make keep's comp(1) version differ so its value is re-sent
    to.set_unit_at(keep, ComponentUnit::new(comp(1), Value::I64(100)));
    to.spawn_mirrored(born, data_of(&[(comp(2), Value::Vec3(1, 2, 3))]));

    let diff = WorldDiff::from_a_to_b(filter.clone(), &from, &to);
    diff.apply(&mut from, EntityData::new(), false);

    assert_eq!(visible_state(&filter, &from), visible_state(&filter, &to));
}

#[test]
fn from_a_to_b_despawns_precede_spawns() {
    // P5 on concrete worlds.
    let filter = all_filter();
    let mut from = World::new();
    let mut to = World::new();
    for i in 0..3u64 {
        from.spawn_mirrored(EntityId { id0: i, id1: 1 }, data_of(&[(comp(1), Value::I64(1))]));
        to.spawn_mirrored(EntityId { id0: i, id1: 2 }, data_of(&[(comp(1), Value::I64(2))]));
    }
    let diff = WorldDiff::from_a_to_b(filter, &from, &to);
    let first_spawn = diff
        .changes
        .iter()
        .position(|c| matches!(c, WorldChange::Spawn(_, _)))
        .unwrap();
    let last_despawn = diff
        .changes
        .iter()
        .rposition(|c| matches!(c, WorldChange::Despawn(_)))
        .unwrap();
    assert!(last_despawn < first_spawn);
}

#[test]
fn from_a_to_b_emits_empty_diff_for_equal_worlds() {
    let filter = all_filter();
    let mut w = World::new();
    w.spawn_mirrored(EntityId { id0: 1, id1: 0 }, data_of(&[(comp(1), Value::I64(1))]));
    let diff = WorldDiff::from_a_to_b(filter, &w, &w);
    assert!(diff.is_empty());
}

#[test]
fn from_a_to_b_respects_component_filter() {
    // comp(2) is never bootstrap-visible, so the diff must not mention it.
    let filter = WorldStreamFilter::new(
        ArchetypeFilter::all(),
        ComponentFilter::uniform(KeyRule::Only(vec![comp(1)])),
    );
    let mut from = World::new();
    let mut to = World::new();
    let id = EntityId { id0: 6, id1: 0 };
    from.spawn_mirrored(id, data_of(&[(comp(1), Value::I64(1)), (comp(2), Value::I64(50))]));
    to.spawn_mirrored(id, data_of(&[(comp(1), Value::I64(1)), (comp(2), Value::I64(60))]));
    let diff = WorldDiff::from_a_to_b(filter, &from, &to);
    assert!(diff.is_empty());
}

#[test]
fn entity_data_append_and_lookup() {
    let a = data_of(&[(comp(1), Value::I64(1)), (comp(2), Value::I64(2))]);
    let b = data_of(&[(comp(2), Value::I64(20)), (comp(3), Value::I64(30))]);
    let merged = a.append(&b);
    assert_eq!(merged.get_unit(comp(1)).unwrap().value, Value::I64(1));
    // the right-hand side wins on conflict
    assert_eq!(merged.get_unit(comp(2)).unwrap().value, Value::I64(20));
    assert_eq!(merged.get_unit(comp(3)).unwrap().value, Value::I64(30));
    assert_eq!(merged.len(), 3);
    let mut keys = merged.components();
    keys.sort_by_key(|c| c.index);
    assert_eq!(keys, vec![comp(1), comp(2), comp(3)]);
}

#[test]
fn despawn_revert_captures_only_replicable_components() {
    let mut world = World::new();
    let id = EntityId { id0: 8, id1: 0 };
    world.spawn_mirrored(
        id,
        data_of(&[(comp(1), Value::I64(1)), (local_comp(2), Value::I64(2))]),
    );
    let diff = WorldDiff::new().despawn(vec![id]);
    let revert = diff.apply(&mut world, EntityData::new(), true).unwrap();
    match &revert.changes[0] {
        WorldChange::Spawn(Some(rid), data) => {
            assert_eq!(*rid, id);
            assert!(data.get_unit(comp(1)).is_some());
            assert!(data.get_unit(local_comp(2)).is_none());
        }
        other => panic!("unexpected revert change: {other:?}"),
    }
}

#[test]
fn replicate_world_makes_worlds_visibly_equal() {
    let filter = all_filter();
    let mut from = World::new();
    from.spawn_mirrored(EntityId { id0: 1, id1: 0 }, data_of(&[(comp(1), Value::I64(1))]));
    from.spawn_mirrored(EntityId { id0: 2, id1: 0 }, data_of(&[(comp(2), Value::I64(2))]));

    let mut to = World::new();
    to.spawn_mirrored(EntityId { id0: 2, id1: 0 }, data_of(&[(comp(2), Value::I64(5))]));
    to.spawn_mirrored(EntityId { id0: 3, id1: 0 }, data_of(&[(comp(3), Value::Bool(true))]));
    to.set_unit_at(
        EntityId { id0: 2, id1: 0 },
        ComponentUnit::new(comp(2), Value::I64(7)),
    );

    assert!(replication::laws::replicate_world(filter.clone(), &mut from, &to));
    assert_eq!(visible_state(&all_filter(), &from), visible_state(&all_filter(), &to));
}

#[test]
fn from_a_to_b_orders_updates_per_entity() {
    // per entity: added components first, then removed, then changed
    let filter = all_filter();
    let id = EntityId { id0: 4, id1: 0 };
    let mut from = World::new();
    from.spawn_mirrored(id, data_of(&[(comp(1), Value::I64(1)), (comp(2), Value::I64(2))]));
    let mut to = World::new();
    to.spawn_mirrored(id, data_of(&[(comp(1), Value::I64(1)), (comp(3), Value::I64(3))]));
    to.set_unit_at(id, ComponentUnit::new(comp(1), Value::I64(10)));

    let diff = WorldDiff::from_a_to_b(filter, &from, &to);
    assert_eq!(diff.changes.len(), 3);
    assert!(matches!(diff.changes[0], WorldChange::AddComponents(_, _)));
    assert!(matches!(diff.changes[1], WorldChange::RemoveComponents(_, _)));
    assert!(matches!(diff.changes[2], WorldChange::SetValue(_, _)));
}

#[test]
fn next_diff_emits_one_set_per_slot() {
    let mut world = World::new();
    let id = world.spawn(data_of(&[(comp(1), Value::I64(0))]));
    let mut stream = WorldStream::new(all_filter());
    stream.next_diff(&world);
    // several writes to one slot between ticks collapse into one Set
    world.set_unit_at(id, ComponentUnit::new(comp(1), Value::I64(1)));
    world.set_unit_at(id, ComponentUnit::new(comp(1), Value::I64(2)));
    let diff = stream.next_diff(&world);
    assert_eq!(diff.changes.len(), 1);
    match &diff.changes[0] {
        WorldChange::SetValue(_, unit) => assert_eq!(unit.value, Value::I64(2)),
        other => panic!("unexpected change: {other:?}"),
    }
}

#[test]
fn add_components_on_missing_entity_is_skipped() {
    let mut world = World::new();
    let missing = EntityId { id0: 77, id1: 0 };
    let id = EntityId { id0: 78, id1: 0 };
    let diff = WorldDiff {
        changes: vec![
            WorldChange::AddComponents(missing, data_of(&[(comp(1), Value::I64(1))])),
            WorldChange::Spawn(Some(id), data_of(&[(comp(1), Value::I64(2))])),
        ],
    };
    // the addition aimed at a gone entity is skipped; the rest still applies
    diff.apply(&mut world, EntityData::new(), false);
    assert!(!world.has_entity(missing));
    assert_eq!(world.get_unit(id, comp(1)).unwrap().value, Value::I64(2));
}

#[test]
fn filter_drops_value_writes_per_predicates() {
    let id = EntityId { id0: 9, id1: 0 };
    let mut world = World::new();
    world.spawn_mirrored(id, data_of(&[(comp(1), Value::I64(1))]));
    let hidden = EntityId { id0: 10, id1: 0 };

    let filter = WorldStreamFilter::new(
        ArchetypeFilter::all(),
        ComponentFilter {
            on_init: KeyRule::All,
            on_set: KeyRule::Only(vec![comp(1)]),
            on_spawn: KeyRule::All,
            on_add: KeyRule::All,
            on_remove: KeyRule::All,
        },
    );
    // entity failing the archetype test: the value write is dropped whole
    let write = WorldChange::SetValue(hidden, ComponentUnit::new(comp(1), Value::I64(5)));
    assert!(write.filter(&world, &filter).is_none());
    // visible entity, admitted component: passes unchanged
    let write = WorldChange::SetValue(id, ComponentUnit::new(comp(1), Value::I64(5)));
    assert!(write.filter(&world, &filter).is_some());
    // visible entity, component not admitted for value writes: dropped
    let write = WorldChange::SetValue(id, ComponentUnit::new(comp(2), Value::I64(5)));
    assert!(write.filter(&world, &filter).is_none());
}
