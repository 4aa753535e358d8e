use kecs::ComponentId;
use kecs::EntityAllocator;
use kecs::UniqueTypeId;

#[test]
fn test_entity_allocator() {
    let mut allocator = EntityAllocator::new();

    let id = allocator.new_entity();
    assert!(allocator.entity_info(id).is_some());

    let dummy_component = ComponentId(UniqueTypeId(0));
    allocator
        .entity_info_mut(id)
        .components
        .insert(dummy_component, ());

    allocator.destroy_entity(id);
    let new_id = allocator.new_entity();
    assert_eq!(new_id.0, id.0);
    assert_ne!(new_id.1, id.1);
    assert!(allocator.entity_info(id).is_none());
    assert!(allocator.entity_info(new_id).is_some());
    assert!(!allocator
        .entity_info(new_id)
        .unwrap()
        .components
        .contains(&dummy_component));
    assert!(allocator.entity_info(new_id).unwrap().generation == 1);
}

#[test]
fn reissued_handle_never_equals_destroyed_one() {
    let mut allocator = EntityAllocator::new();
    let a = allocator.new_entity();
    let b = allocator.new_entity();
    allocator.destroy_entity(a);
    let c = allocator.new_entity();
    assert_ne!(c, a);
    assert_ne!(c, b);
    assert_eq!(c.0, a.0);
    assert_eq!(c.1, a.1 + 1);
}
