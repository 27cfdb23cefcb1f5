use replication::component::{Component, ComponentUnit, EntityData, Value};
use replication::diff::WorldChange;
use replication::filter::{
    ArchetypeFilter, ComponentFilter, KeyRule, WorldStreamCompEvent, WorldStreamFilter,
};
use replication::ids::EntityId;
use replication::stream::WorldStream;
use replication::world::World;

fn comp(index: u32) -> Component {
    Component { index, extended: true }
}

fn data_of(units: &[(Component, Value)]) -> EntityData {
    let mut d = EntityData::new();
    for (c, v) in units {
        d.set_unit(ComponentUnit::new(*c, *v));
    }
    d
}

fn all_filter() -> WorldStreamFilter {
    WorldStreamFilter::new(ArchetypeFilter::all(), ComponentFilter::all())
}

#[test]
fn initial_diff_bootstrap_single_entity() {
    // P6: a filter admitting {e1 (pos=(0,0,0))}: initial_diff yields exactly
    // one Spawn(Some(e1), {pos: (0,0,0)}).
    let pos = comp(1);
    let e1 = EntityId { id0: 1, id1: 0 };
    let mut world = World::new();
    world.spawn_mirrored(e1, data_of(&[(pos, Value::Vec3(0, 0, 0))]));

    let filter = all_filter();
    let diff = filter.initial_diff(&world);
    assert_eq!(diff.changes.len(), 1);
    match &diff.changes[0] {
        WorldChange::Spawn(Some(id), data) => {
            assert_eq!(*id, e1);
            assert_eq!(data.len(), 1);
            assert_eq!(data.get_unit(pos).unwrap().value, Value::Vec3(0, 0, 0));
        }
        other => panic!("unexpected bootstrap change: {other:?}"),
    }
}

#[test]
fn next_diff_twice_is_empty() {
    // P4: with no intervening world mutation the second diff is empty.
    let mut world = World::new();
    world.spawn(data_of(&[(comp(1), Value::I64(1))]));
    let mut stream = WorldStream::new(all_filter());
    let first = stream.next_diff(&world);
    assert!(!first.is_empty());
    let second = stream.next_diff(&world);
    assert!(second.is_empty());
}

#[test]
fn next_diff_picks_up_value_writes_once() {
    let mut world = World::new();
    let id = world.spawn(data_of(&[(comp(1), Value::I64(1))]));
    let mut stream = WorldStream::new(all_filter());
    stream.next_diff(&world);

    world.set_unit_at(id, ComponentUnit::new(comp(1), Value::I64(2)));
    let diff = stream.next_diff(&world);
    assert_eq!(diff.changes.len(), 1);
    match &diff.changes[0] {
        WorldChange::SetValue(sid, unit) => {
            assert_eq!(*sid, id);
            assert_eq!(unit.value, Value::I64(2));
        }
        other => panic!("unexpected change: {other:?}"),
    }
    assert!(stream.next_diff(&world).is_empty());
}

#[test]
fn next_diff_filters_components_per_event() {
    // P3 on concrete values: comp(2) is not replicated on value writes, so
    // writing it emits nothing; comp(1) writes pass.
    let filter = WorldStreamFilter::new(
        ArchetypeFilter::all(),
        ComponentFilter {
            on_init: KeyRule::All,
            on_set: KeyRule::Only(vec![comp(1)]),
            on_spawn: KeyRule::All,
            on_add: KeyRule::All,
            on_remove: KeyRule::All,
        },
    );
    let mut world = World::new();
    let id = world.spawn(data_of(&[(comp(1), Value::I64(1)), (comp(2), Value::I64(2))]));
    let mut stream = WorldStream::new(filter);
    stream.next_diff(&world);

    world.set_unit_at(id, ComponentUnit::new(comp(2), Value::I64(20)));
    assert!(stream.next_diff(&world).is_empty());

    world.set_unit_at(id, ComponentUnit::new(comp(1), Value::I64(10)));
    let diff = stream.next_diff(&world);
    assert_eq!(diff.changes.len(), 1);
    match &diff.changes[0] {
        WorldChange::SetValue(_, unit) => assert_eq!(unit.component, comp(1)),
        other => panic!("unexpected change: {other:?}"),
    }
}

#[test]
fn next_diff_drops_spawns_failing_archetype_but_forwards_despawns() {
    // The archetype predicate requires comp(1); an entity without it is
    // never spawned to the peer, but its despawn is forwarded untested.
    let filter = WorldStreamFilter::new(
        ArchetypeFilter { incl: vec![comp(1)], excl: vec![] },
        ComponentFilter::all(),
    );
    let mut world = World::new();
    let mut stream = WorldStream::new(filter);
    stream.next_diff(&world);

    let hidden = world.spawn(data_of(&[(comp(2), Value::I64(2))]));
    let visible = world.spawn(data_of(&[(comp(1), Value::I64(1))]));
    let diff = stream.next_diff(&world);
    // both change sources fire for the fresh entity: its spawn shape event
    // and the value write of its slot; the hidden entity contributes nothing
    assert_eq!(diff.changes.len(), 2);
    match &diff.changes[0] {
        WorldChange::Spawn(Some(id), _) => assert_eq!(*id, visible),
        other => panic!("unexpected change: {other:?}"),
    }
    match &diff.changes[1] {
        WorldChange::SetValue(id, unit) => {
            assert_eq!(*id, visible);
            assert_eq!(unit.component, comp(1));
        }
        other => panic!("unexpected change: {other:?}"),
    }

    world.despawn(hidden);
    let diff = stream.next_diff(&world);
    assert_eq!(diff.changes.len(), 1);
    assert!(matches!(diff.changes[0], WorldChange::Despawn(d) if d == hidden));
}

#[test]
fn next_diff_spawn_data_filtered_by_spawn_event() {
    // Asymmetric policy: comp(2) is visible on bootstrap but never on spawn
    // events.
    let filter = WorldStreamFilter::new(
        ArchetypeFilter::all(),
        ComponentFilter {
            on_init: KeyRule::All,
            on_set: KeyRule::Only(vec![comp(1)]),
            on_spawn: KeyRule::Except(vec![comp(2)]),
            on_add: KeyRule::All,
            on_remove: KeyRule::All,
        },
    );
    assert!(filter.component_filter.allows(comp(2), WorldStreamCompEvent::Init));
    assert!(!filter.component_filter.allows(comp(2), WorldStreamCompEvent::Spawn));

    let mut world = World::new();
    let mut stream = WorldStream::new(filter);
    stream.next_diff(&world);
    world.spawn(data_of(&[(comp(1), Value::I64(1)), (comp(2), Value::I64(2))]));
    let diff = stream.next_diff(&world);
    // the spawn shape event with comp(2) pruned, plus the value write of the
    // slot admitted for replication on writes
    assert_eq!(diff.changes.len(), 2);
    match &diff.changes[0] {
        WorldChange::Spawn(_, data) => {
            assert!(data.get_unit(comp(1)).is_some());
            assert!(data.get_unit(comp(2)).is_none());
        }
        other => panic!("unexpected change: {other:?}"),
    }
    match &diff.changes[1] {
        WorldChange::SetValue(_, unit) => assert_eq!(unit.component, comp(1)),
        other => panic!("unexpected change: {other:?}"),
    }
}

#[test]
fn stream_filter_accessor_returns_the_peer_filter() {
    let filter = WorldStreamFilter::new(
        ArchetypeFilter { incl: vec![comp(9)], excl: vec![] },
        ComponentFilter::all(),
    );
    let stream = WorldStream::new(filter);
    assert_eq!(stream.filter().arch_filter.incl, vec![comp(9)]);
}

#[test]
fn all_entities_respects_archetype_filter() {
    let filter = WorldStreamFilter::new(
        ArchetypeFilter { incl: vec![comp(1)], excl: vec![comp(3)] },
        ComponentFilter::all(),
    );
    let mut world = World::new();
    let a = world.spawn(data_of(&[(comp(1), Value::I64(1))]));
    let _b = world.spawn(data_of(&[(comp(2), Value::I64(2))]));
    let _c = world.spawn(data_of(&[(comp(1), Value::I64(1)), (comp(3), Value::I64(3))]));
    let ids = filter.all_entities(&world);
    assert_eq!(ids, vec![a]);
}
