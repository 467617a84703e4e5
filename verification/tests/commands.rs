use quad::ecs::command::{Command, CommandQueue, Commands};
use quad::ecs::entity::Entity;
use quad::ecs::system::{RemovedComponentsState, ResMutState, ResState, SystemMeta};
use quad::ecs::world::World;

struct SpawnCommand;

impl Command<u32> for SpawnCommand {
    fn write(self, world: &mut World<u32>) {
        world.spawn();
    }
}

/// Component id of the test component `C(u32)`.
const C: u32 = 0;

#[test]
fn test_command_queue_inner() {
    let mut queue = CommandQueue::default();

    queue.push(SpawnCommand);
    queue.push(SpawnCommand);

    let mut world = World::<u32>::new();
    queue.apply(&mut world);

    assert_eq!(world.entities().len(), 2);

    queue.apply(&mut world);
    assert_eq!(world.entities().len(), 2);
}

#[test]
fn build_children() {
    let mut world = World::<u32>::new();
    let mut queue = CommandQueue::default();
    let mut commands = Commands::new(&mut queue, &mut world);

    let mut children = Vec::new();
    let parent = commands.spawn().insert(C, 1).id();
    commands.entity(parent).with_children(|parent| {
        children.push(parent.spawn().insert(C, 2).id());
        children.push(parent.spawn().insert(C, 3).id());
        children.push(parent.spawn().insert(C, 4).id());
    });

    queue.apply(&mut world);
    assert_eq!(
        world.entity(parent).children().unwrap(),
        children.as_slice(),
    );
    assert_eq!(world.entity(children[0]).parent().unwrap(), parent);
    assert_eq!(world.entity(children[1]).parent().unwrap(), parent);
}

/// Component and resource values of the removal-tracking test.
#[derive(Debug, Clone, PartialEq)]
enum Value {
    Text(String),
    Number(i32),
    Ran(bool),
    Despawned(Entity),
}

#[test]
fn remove_tracking() {
    const TEXT: u32 = 0;
    const NUMBER: u32 = 1;
    const RAN: u32 = 0;
    const DESPAWNED: u32 = 1;
    let mut world = World::<Value>::new();
    let a = world
        .spawn()
        .insert_bundle(vec![(TEXT, Value::Text("abc".to_owned())), (NUMBER, Value::Number(123))])
        .id();
    world.insert_resource(RAN, Value::Ran(false));
    world.insert_resource(DESPAWNED, Value::Despawned(a));

    world.entity_mut(a).despawn();

    // the `validate_removed` system: removals of `Number`, `Res<Despawned>`, `ResMut<Ran>`
    let mut meta = SystemMeta::new(String::from("validate_removed"));
    let removed_state = RemovedComponentsState::new(NUMBER);
    let despawned_state = ResState::new(&mut meta, DESPAWNED);
    let ran_state = ResMutState::new(&mut meta, RAN);
    {
        let removed_i32 = removed_state.get_param(&world);
        let despawned = match despawned_state.get_param(&world).into_inner() {
            Value::Despawned(e) => *e,
            other => panic!("unexpected resource {:?}", other),
        };
        assert_eq!(
            removed_i32.iter(),
            &[despawned],
            "despawning results in 'removed component' state"
        );
    }
    {
        let ran = ran_state.get_param(&mut world);
        *ran.into_inner() = Value::Ran(true);
    }
    assert_eq!(world.get_resource(RAN), Some(&Value::Ran(true)), "system ran");
}
