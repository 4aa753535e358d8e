use kecs::AccessMode;
use kecs::ArchetypeManager;
use kecs::ComponentId;
use kecs::QueryState;
use kecs::SparseSet;
use kecs::WorldContainer;

const POSITION: u64 = 100;
const VELOCITY: u64 = 101;
const TAG: u64 = 102;
const COUNTER: u64 = 103;

fn u32_bytes(value: u32) -> Vec<u8> {
    value.to_le_bytes().to_vec()
}

fn u32_of(bytes: &[u8]) -> u32 {
    u32::from_le_bytes([bytes[0], bytes[1], bytes[2], bytes[3]])
}

#[test]
fn add_then_get_returns_value() {
    let mut world = WorldContainer::new();
    let entity = world.new_entity();
    world.add_component(entity, POSITION, 4, 4, &u32_bytes(42));
    assert_eq!(world.get_component(entity, POSITION), Some(u32_bytes(42)));

    // the value stays until mutated: an unrelated component does not
    // disturb it
    world.add_component(entity, VELOCITY, 4, 4, &u32_bytes(7));
    assert_eq!(world.get_component(entity, POSITION), Some(u32_bytes(42)));

    // replacing overwrites in place
    world.add_component(entity, POSITION, 4, 4, &u32_bytes(43));
    assert_eq!(world.get_component(entity, POSITION), Some(u32_bytes(43)));
}

#[test]
fn add_then_remove_then_get_is_absent() {
    let mut world = WorldContainer::new();
    let entity = world.new_entity();
    world.add_component(entity, POSITION, 4, 4, &u32_bytes(42));
    world.remove_component(entity, POSITION);
    assert_eq!(world.get_component(entity, POSITION), None);
    assert!(!world.entity_has_component(entity, POSITION));
}

#[test]
fn resource_replacement_leaves_exactly_the_new_value() {
    let mut world = WorldContainer::new();
    world.add_resource(COUNTER, 4, 4, &u32_bytes(1), String::from("Counter"));
    world.add_resource(COUNTER, 4, 4, &u32_bytes(2), String::from("Counter"));
    assert_eq!(world.get_resource(COUNTER), Some(u32_bytes(2)));
}

#[test]
fn non_send_resources_live_in_their_own_registry() {
    let mut world = WorldContainer::new();
    world.add_non_send_resource(COUNTER, 4, 4, &u32_bytes(9), String::from("Counter"));
    assert_eq!(world.get_resource(COUNTER), Some(u32_bytes(9)));
    assert_eq!(world.get_resource(TAG), None);
}

#[test]
fn destroyed_entities_are_not_live_and_handles_stay_stale() {
    let mut world = WorldContainer::new();
    let a = world.new_entity();
    world.add_component(a, POSITION, 4, 4, &u32_bytes(5));
    world.remove_entity(a);
    assert_eq!(world.get_component(a, POSITION), None);
    assert!(world.get_entity_info(a).is_none());

    // the re-issued handle reuses the slot under a bumped generation, so
    // the stale handle still misses
    let b = world.new_entity();
    assert_eq!(b.0, a.0);
    assert_ne!(b, a);
    assert!(world.get_entity_info(a).is_none());
    assert!(world.get_entity_info(b).is_some());
    assert_eq!(world.get_component(b, POSITION), None);
}

#[test]
fn archetype_id_ignores_insertion_order() {
    let mut manager = ArchetypeManager::new();

    let mut forward: SparseSet<ComponentId, ()> = SparseSet::new();
    forward.insert(ComponentId::from_usize(1), ());
    forward.insert(ComponentId::from_usize(2), ());
    forward.insert(ComponentId::from_usize(3), ());

    let mut backward: SparseSet<ComponentId, ()> = SparseSet::new();
    backward.insert(ComponentId::from_usize(3), ());
    backward.insert(ComponentId::from_usize(2), ());
    backward.insert(ComponentId::from_usize(1), ());

    let id_forward = manager.archetype_of(&forward);
    let id_backward = manager.archetype_of(&backward);
    assert_eq!(id_forward, id_backward);

    // repeated canonicalization returns the same id
    assert_eq!(manager.archetype_of(&forward), id_forward);

    let mut other: SparseSet<ComponentId, ()> = SparseSet::new();
    other.insert(ComponentId::from_usize(1), ());
    assert_ne!(manager.archetype_of(&other), id_forward);
}

#[test]
fn archetype_always_reflects_component_set() {
    let mut world = WorldContainer::new();
    let a = world.new_entity();
    let b = world.new_entity();
    world.add_component(a, POSITION, 4, 4, &u32_bytes(0));
    world.add_component(b, POSITION, 4, 4, &u32_bytes(0));
    world.add_component(b, VELOCITY, 4, 4, &u32_bytes(0));

    let info_a = world.get_entity_info(a).unwrap();
    let info_b = world.get_entity_info(b).unwrap();
    assert_ne!(info_a.archetype_id, info_b.archetype_id);

    // removing the extra component moves b back into a's archetype
    let arche_a = info_a.archetype_id;
    world.remove_component(b, VELOCITY);
    assert_eq!(world.get_entity_info(b).unwrap().archetype_id, arche_a);
}

#[test]
fn zero_sized_components_consume_no_storage_and_all_match() {
    const ENTITIES: usize = 100;
    let mut world = WorldContainer::new();
    let empty: Vec<u8> = Vec::new();

    let mut query_set: SparseSet<ComponentId, AccessMode> = SparseSet::new();
    let mut state = {
        let tag_id = world.get_or_create_component_id(TAG);
        query_set.insert(tag_id, AccessMode::Read);
        QueryState::create_initial_state(&mut world, &query_set)
    };

    for _ in 0..ENTITIES {
        let entity = world.new_entity();
        world.add_component(entity, TAG, 0, 1, &empty);
        let info = world.get_entity_info(entity).unwrap().clone();
        state.on_entity_changed(world.get_archetype_manager(), entity, &info);
    }

    assert_eq!(state.entities.len(), ENTITIES);
}

#[test]
fn query_membership_follows_component_changes() {
    let mut world = WorldContainer::new();

    let mut query_set: SparseSet<ComponentId, AccessMode> = SparseSet::new();
    let a_id = world.get_or_create_component_id(POSITION);
    let b_id = world.get_or_create_component_id(VELOCITY);
    query_set.insert(a_id, AccessMode::Read);
    query_set.insert(b_id, AccessMode::Read);
    let mut state = QueryState::create_initial_state(&mut world, &query_set);

    let entity = world.new_entity();
    world.add_component(entity, POSITION, 4, 4, &u32_bytes(0));
    let info = world.get_entity_info(entity).unwrap().clone();
    state.on_entity_changed(world.get_archetype_manager(), entity, &info);
    assert!(!state.entities.contains(&entity));

    world.add_component(entity, VELOCITY, 4, 4, &u32_bytes(0));
    let info = world.get_entity_info(entity).unwrap().clone();
    state.on_entity_changed(world.get_archetype_manager(), entity, &info);
    assert!(state.entities.contains(&entity));

    world.remove_component(entity, POSITION);
    let info = world.get_entity_info(entity).unwrap().clone();
    state.on_entity_changed(world.get_archetype_manager(), entity, &info);
    assert!(!state.entities.contains(&entity));

    world.remove_entity(entity);
    state.on_entity_destroyed(entity);
    assert!(!state.entities.contains(&entity));
}

#[test]
fn position_accumulates_velocity_over_iterations() {
    const ENTITIES: usize = 1000;
    const ITERATIONS: u32 = 100;
    let mut world = WorldContainer::new();

    let mut entities = Vec::new();
    for i in 0..ENTITIES {
        let entity = world.new_entity();
        world.add_component(entity, POSITION, 4, 4, &u32_bytes(0));
        world.add_component(entity, VELOCITY, 4, 4, &u32_bytes(i as u32 % 7 + 1));
        entities.push(entity);
    }

    for _ in 0..ITERATIONS {
        for entity in &entities {
            let position = u32_of(&world.get_component(*entity, POSITION).unwrap());
            let velocity = u32_of(&world.get_component(*entity, VELOCITY).unwrap());
            world.add_component(*entity, POSITION, 4, 4, &u32_bytes(position + velocity));
        }
    }

    let first = entities[0];
    let velocity = u32_of(&world.get_component(first, VELOCITY).unwrap());
    let position = u32_of(&world.get_component(first, POSITION).unwrap());
    assert_eq!(position, velocity * ITERATIONS);
}

#[test]
fn empty_world_produces_an_empty_plan() {
    let world = WorldContainer::new();
    assert!(world.iter_all_entities().is_empty());

    let scheduler = kecs::GraphScheduler::new();
    let schedule = scheduler.compute_schedule();
    assert!(schedule.groups.is_empty());
}
