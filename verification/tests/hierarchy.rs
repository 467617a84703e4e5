use quad::ecs::entity::Entity;
use quad::ecs::world::World;

fn check_parent(world: &World<u32>, entity: Entity, parent: Option<Entity>) {
    assert_eq!(world.entity(entity).parent(), parent);
}

fn check_children(world: &World<u32>, entity: Entity, children: Option<&[Entity]>) {
    assert_eq!(world.entity(entity).children(), children);
}

#[test]
fn despawn() {
    let mut world = World::<u32>::new();
    let entity = world.spawn().id();
    let entity_ref = world.entity_mut(entity);
    entity_ref.despawn();
    assert!(!world.has_entity(entity));
}

#[test]
fn despawn_recursive() {
    let mut world = World::<u32>::new();
    let child1_entity = world.spawn().id();
    let child2_entity = world.spawn().id();
    let no_parent_entity = world.spawn().id();
    let parent_entity = world
        .spawn()
        .push_children(&[child1_entity, child2_entity])
        .id();
    let grandparent_entity = world.spawn().push_child(parent_entity).id();
    assert!(world.has_entity(child1_entity));
    assert!(world.has_entity(child2_entity));
    assert!(world.has_entity(parent_entity));
    assert!(world.has_entity(grandparent_entity));
    assert!(world.has_entity(no_parent_entity));
    check_children(&world, parent_entity, Some(&[child1_entity, child2_entity]));
    check_children(&world, grandparent_entity, Some(&[parent_entity]));

    world.entity_mut(parent_entity).despawn_recursive();
    assert!(!world.has_entity(child1_entity));
    assert!(!world.has_entity(child2_entity));
    assert!(!world.has_entity(parent_entity));
    assert!(world.has_entity(grandparent_entity));
    assert!(world.has_entity(no_parent_entity));
    check_children(&world, grandparent_entity, Some(&[]));
}

#[test]
fn push_child() {
    let mut world = World::<u32>::new();

    let grandchild_entity = world.spawn().id();
    let child1_entity = world.spawn().push_child(grandchild_entity).id();
    let child2_entity = world.spawn().id();
    let parent_entity = world
        .spawn()
        .push_child(child1_entity)
        .push_child(child2_entity)
        .id();

    check_children(&world, grandchild_entity, None);
    check_parent(&world, grandchild_entity, Some(child1_entity));
    check_children(&world, child1_entity, Some(&[grandchild_entity]));
    check_parent(&world, child1_entity, Some(parent_entity));
    check_children(&world, child2_entity, None);
    check_parent(&world, child2_entity, Some(parent_entity));
    check_children(&world, parent_entity, Some(&[child1_entity, child2_entity]));
    check_parent(&world, parent_entity, None);
}

#[test]
fn push_children() {
    let mut world = World::<u32>::new();

    let grandchild_entity = world.spawn().id();
    let child1_entity = world.spawn().push_children(&[grandchild_entity]).id();
    let child2_entity = world.spawn().id();
    let parent_entity = world
        .spawn()
        .push_children(&[child1_entity, child2_entity])
        .id();

    check_children(&world, grandchild_entity, None);
    check_parent(&world, grandchild_entity, Some(child1_entity));
    check_children(&world, child1_entity, Some(&[grandchild_entity]));
    check_parent(&world, child1_entity, Some(parent_entity));
    check_children(&world, child2_entity, None);
    check_parent(&world, child2_entity, Some(parent_entity));
    check_children(&world, parent_entity, Some(&[child1_entity, child2_entity]));
    check_parent(&world, parent_entity, None);
}

#[test]
fn insert_child() {
    let mut world = World::<u32>::new();

    let child1_entity = world.spawn().id();
    let child2_entity = world.spawn().id();
    let child3_entity = world.spawn().id();
    let parent_entity = world.spawn().id();

    world
        .entity_mut(parent_entity)
        .insert_child(0, child1_entity);

    check_parent(&world, child1_entity, Some(parent_entity));
    check_children(&world, parent_entity, Some(&[child1_entity]));

    world
        .entity_mut(parent_entity)
        .insert_child(1, child3_entity);
    check_parent(&world, child3_entity, Some(parent_entity));
    check_children(&world, parent_entity, Some(&[child1_entity, child3_entity]));

    world
        .entity_mut(parent_entity)
        .insert_child(1, child2_entity);
    check_parent(&world, child2_entity, Some(parent_entity));
    check_children(
        &world,
        parent_entity,
        Some(&[child1_entity, child2_entity, child3_entity]),
    );
}

#[test]
fn insert_children() {
    let mut world = World::<u32>::new();

    let child1_entity = world.spawn().id();
    let child2_entity = world.spawn().id();
    let child3_entity = world.spawn().id();
    let child4_entity = world.spawn().id();
    let parent_entity = world.spawn().id();

    world
        .entity_mut(parent_entity)
        .insert_children(0, &[child1_entity, child4_entity]);
    check_parent(&world, child1_entity, Some(parent_entity));
    check_parent(&world, child4_entity, Some(parent_entity));
    check_children(&world, parent_entity, Some(&[child1_entity, child4_entity]));

    world
        .entity_mut(parent_entity)
        .insert_children(1, &[child2_entity, child3_entity]);
    check_parent(&world, child2_entity, Some(parent_entity));
    check_parent(&world, child3_entity, Some(parent_entity));
    check_children(
        &world,
        parent_entity,
        Some(&[child1_entity, child2_entity, child3_entity, child4_entity]),
    );
}

#[test]
fn remove_child() {
    let mut world = World::<u32>::new();

    let child1_entity = world.spawn().id();
    let child2_entity = world.spawn().id();
    let parent_entity = world
        .spawn()
        .push_children(&[child1_entity, child2_entity])
        .id();

    check_children(&world, parent_entity, Some(&[child1_entity, child2_entity]));
    check_parent(&world, child1_entity, Some(parent_entity));
    check_parent(&world, child2_entity, Some(parent_entity));

    world.entity_mut(parent_entity).remove_child(child1_entity);
    check_children(&world, parent_entity, Some(&[child2_entity]));
    check_parent(&world, child1_entity, None);
    check_parent(&world, child2_entity, Some(parent_entity));

    world.entity_mut(parent_entity).remove_child(child2_entity);
    check_children(&world, parent_entity, Some(&[]));
    check_parent(&world, child1_entity, None);
    check_parent(&world, child2_entity, None);
}

#[test]
fn remove_children() {
    let mut world = World::<u32>::new();

    let child1_entity = world.spawn().id();
    let child2_entity = world.spawn().id();
    let child3_entity = world.spawn().id();
    let parent_entity = world
        .spawn()
        .push_children(&[child1_entity, child2_entity, child3_entity])
        .id();

    check_children(
        &world,
        parent_entity,
        Some(&[child1_entity, child2_entity, child3_entity]),
    );
    check_parent(&world, child1_entity, Some(parent_entity));
    check_parent(&world, child2_entity, Some(parent_entity));
    check_parent(&world, child3_entity, Some(parent_entity));

    world
        .entity_mut(parent_entity)
        .remove_children(&[child2_entity]);
    check_children(&world, parent_entity, Some(&[child1_entity, child3_entity]));
    check_parent(&world, child1_entity, Some(parent_entity));
    check_parent(&world, child2_entity, None);
    check_parent(&world, child3_entity, Some(parent_entity));

    world
        .entity_mut(parent_entity)
        .remove_children(&[child1_entity, child3_entity]);
    check_children(&world, parent_entity, Some(&[]));
    check_parent(&world, child1_entity, None);
    check_parent(&world, child2_entity, None);
    check_parent(&world, child3_entity, None);
}

#[test]
fn remove_from_parent() {
    let mut world = World::<u32>::new();

    let child1_entity = world.spawn().id();
    let child2_entity = world.spawn().id();
    let parent_entity = world
        .spawn()
        .push_children(&[child1_entity, child2_entity])
        .id();

    check_children(&world, parent_entity, Some(&[child1_entity, child2_entity]));
    check_parent(&world, child1_entity, Some(parent_entity));
    check_parent(&world, child2_entity, Some(parent_entity));

    world.entity_mut(child1_entity).remove_from_parent();
    check_children(&world, parent_entity, Some(&[child2_entity]));
    check_parent(&world, child1_entity, None);
    check_parent(&world, child2_entity, Some(parent_entity));

    world.entity_mut(child2_entity).remove_from_parent();
    check_children(&world, parent_entity, Some(&[]));
    check_parent(&world, child1_entity, None);
    check_parent(&world, child2_entity, None);
}
