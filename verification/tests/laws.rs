use quad::ecs::command::{CommandQueue, Commands};
use quad::ecs::system::Access;
use quad::ecs::world::{FromWorld, World};

#[test]
fn remove_child_undoes_push_child() {
    let mut world = World::<u32>::new();
    let first = world.spawn().id();
    let parent = world.spawn().push_child(first).id();
    let child = world.spawn().id();
    world.entity_mut(parent).push_child(child);
    assert_eq!(world.entity(child).parent(), Some(parent));
    assert_eq!(world.entity(parent).children(), Some(&[first, child][..]));
    world.entity_mut(parent).remove_child(child);
    assert_eq!(world.entity(child).parent(), None);
    assert_eq!(world.entity(parent).children(), Some(&[first][..]));
}

#[test]
fn remove_from_parent_undoes_push_child() {
    let mut world = World::<u32>::new();
    let first = world.spawn().id();
    let parent = world.spawn().push_child(first).id();
    let child = world.spawn().id();
    world.entity_mut(parent).push_child(child);
    world.entity_mut(child).remove_from_parent();
    assert_eq!(world.entity(child).parent(), None);
    assert_eq!(world.entity(parent).children(), Some(&[first][..]));
}

#[test]
fn freed_handle_is_not_handed_out_again() {
    let mut world = World::<u32>::new();
    let a = world.spawn().id();
    world.despawn(a);
    let b = world.spawn().id();
    assert_eq!(b.id(), a.id());
    assert_eq!(b.generation(), a.generation() + 1);
    assert_ne!(a, b);
    assert!(!world.has_entity(a));
    assert!(world.has_entity(b));
}

#[test]
fn despawn_all_frees_every_entity_without_logging() {
    let mut world = World::<u32>::new();
    let a = world.spawn().insert(0, 1).id();
    let b = world.spawn().id();
    world.despawn_all();
    assert!(!world.has_entity(a));
    assert!(!world.has_entity(b));
    assert_eq!(world.len(), 0);
    assert!(world.removed(0).is_empty());
    let c = world.spawn().id();
    assert_eq!(c.id(), b.id());
}

#[test]
fn from_world_is_the_default() {
    let mut world = World::<u32>::new();
    let n: u64 = FromWorld::from_world(&mut world);
    assert_eq!(n, 0);
    let s: String = FromWorld::from_world(&mut world);
    assert_eq!(s, "");
}

#[test]
fn queue_applied_in_two_batches_is_queue_applied_once() {
    let mut once = World::<u32>::new();
    let mut twice = World::<u32>::new();
    let mut queue = CommandQueue::default();
    {
        let mut commands = Commands::new(&mut queue, &mut once);
        commands.spawn().insert(1, 10);
        commands.spawn().insert(2, 20);
    }
    queue.apply(&mut once);

    let mut first = CommandQueue::default();
    {
        let mut commands = Commands::new(&mut first, &mut twice);
        commands.spawn().insert(1, 10);
    }
    first.apply(&mut twice);
    let mut second = CommandQueue::default();
    {
        let mut commands = Commands::new(&mut second, &mut twice);
        commands.spawn().insert(2, 20);
    }
    second.apply(&mut twice);

    assert_eq!(once.len(), twice.len());
    for id in 0..2u32 {
        let e = quad::ecs::entity::Entity::from_raw(id);
        assert_eq!(once.get_component(e, id + 1), twice.get_component(e, id + 1));
    }
}

#[test]
fn access_extend_and_compatibility() {
    let mut a = Access::new();
    a.add_read(1);
    let mut b = Access::new();
    b.add_write(2);
    assert!(a.is_compatible(&b));
    assert!(b.is_compatible(&a));
    a.extend(&b);
    assert!(a.has_read(1) && a.has_read(2) && a.has_write(2));
    assert!(!a.has_write(1));
    assert!(!a.is_compatible(&b));
}

#[test]
fn despawn_leaves_no_dangling_links() {
    let mut world = World::<u32>::new();
    let child = world.spawn().id();
    let middle = world.spawn().push_child(child).id();
    let top = world.spawn().push_child(middle).id();
    world.despawn(middle);
    assert!(!world.has_entity(middle));
    assert_eq!(world.entity(child).parent(), None);
    assert_eq!(world.entity(top).children(), Some(&[][..]));
}

#[test]
fn latest_draw_function_added_for_a_type_wins() {
    let mut draws = quad::render::draw::DrawFunctionsInternal::new();
    let first = draws.add(5, "first");
    let other = draws.add(6, "other");
    let second = draws.add_with(5, "second");
    assert_eq!(first.0, 0);
    assert_eq!(other.0, 1);
    assert_eq!(second.0, 2);
    assert_eq!(draws.get_id(5), Some(second));
    assert_eq!(draws.get_id(6), Some(other));
    assert_eq!(draws.get_id(7), None);
}

#[test]
fn spawned_entity_is_found_until_despawned() {
    let mut world: World<u32> = World::new();
    let a = world.spawn().id();
    let b = world.spawn().id();
    assert!(world.get_entity(a).is_some());
    assert!(world.get_entity(b).is_some());
    assert!(world.despawn(a));
    assert!(world.get_entity(a).is_none());
    assert!(world.get_entity(b).is_some());
    let c = world.spawn().id();
    assert_eq!(c.id, a.id);
    assert_ne!(c, a);
    assert!(world.get_entity(a).is_none());
    assert!(world.get_entity(c).is_some());
}

#[test]
fn change_tick_advances_and_leaves_entities() {
    let mut world: World<u32> = World::new();
    let e = world.spawn().id();
    assert_eq!(world.change_tick(), 0);
    assert_eq!(world.increment_change_tick(), 0);
    assert_eq!(world.increment_change_tick(), 1);
    assert_eq!(world.change_tick(), 2);
    assert!(world.get_entity(e).is_some());
}

#[test]
fn bundle_insert_and_remove_work_on_sets() {
    let mut world: World<u32> = World::new();
    let e = world.spawn().insert(1, 10).insert(2, 20).id();
    let other = world.spawn().insert(1, 99).id();
    world.entity_mut(e).insert_bundle(vec![(2, 21), (3, 30), (3, 31)]);
    assert_eq!(world.entity(e).get(1), Some(&10));
    assert_eq!(world.entity(e).get(2), Some(&21));
    assert_eq!(world.entity(e).get(3), Some(&31));
    assert_eq!(world.entity(other).get(1), Some(&99));
    assert!(world.is_registered(3));

    world.entity_mut(e).remove_bundle_intersection(&[1, 3, 3, 4]);
    assert!(!world.entity(e).contains(1));
    assert!(!world.entity(e).contains(3));
    assert_eq!(world.entity(e).get(2), Some(&21));
    assert_eq!(world.removed(1), &[e][..]);
    assert_eq!(world.removed(3), &[e][..]);
    assert!(world.removed(4).is_empty());
    assert!(!world.is_registered(4));
    assert_eq!(world.entity(other).get(1), Some(&99));

    assert_eq!(world.entity_mut(e).remove_bundle(&[2, 5]), None);
    assert_eq!(world.entity(e).get(2), Some(&21));
    assert_eq!(world.entity_mut(e).remove_bundle(&[2]), Some(vec![21]));
    assert_eq!(world.removed(2), &[e][..]);
}

#[test]
fn despawn_detaches_from_parent_and_orphans_children() {
    let mut world: World<u32> = World::new();
    let a = world.spawn().id();
    let b = world.spawn().id();
    let grandchild = world.spawn().id();
    let middle = world.spawn().push_child(grandchild).id();
    let root = world.spawn().push_children(&[a, middle, b]).id();
    assert!(world.despawn(middle));
    assert!(world.get_entity(middle).is_none());
    assert_eq!(world.entity(root).children().unwrap(), &[a, b][..]);
    assert!(world.get_entity(grandchild).is_some());
    assert_eq!(world.entity(grandchild).parent(), None);
    assert!(!world.despawn(middle));
}

#[test]
fn spawned_command_entity_is_fresh_until_applied() {
    let mut world: World<u32> = World::new();
    let live = world.spawn().id();
    let mut queue = CommandQueue::default();
    let reserved = {
        let mut commands = Commands::new(&mut queue, &mut world);
        let first = commands.spawn().id();
        let second = commands.spawn().id();
        assert_ne!(first, second);
        assert_ne!(first, live);
        assert_ne!(second, live);
        first
    };
    assert!(world.get_entity(reserved).is_none());
    queue.apply(&mut world);
    assert!(world.get_entity(reserved).is_some());
    assert!(world.get_entity(live).is_some());
}

#[test]
fn queued_resource_is_written_on_apply() {
    let mut world: World<u32> = World::new();
    let mut queue = CommandQueue::default();
    {
        let mut commands = Commands::new(&mut queue, &mut world);
        commands.insert_resource(4, 40);
    }
    assert_eq!(queue.len(), 1);
    assert!(world.get_resource(4).is_none());
    queue.apply(&mut world);
    assert_eq!(world.get_resource(4), Some(&40));
}
