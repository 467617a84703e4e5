use quad::ecs::entity::Entity;
use quad::ecs::query::{
    init_query_state, Query, QueryComponentError, QueryEntityError, QuerySingleError, QueryState,
};
use quad::ecs::system::{SystemMeta, SystemTicks};
use quad::ecs::world::World;

const POSITION: u32 = 0;
const VELOCITY: u32 = 1;
const FROZEN: u32 = 2;

fn world_with_three() -> (World<u32>, Entity, Entity, Entity) {
    let mut world = World::<u32>::new();
    let a = world.spawn().insert(POSITION, 1).insert(VELOCITY, 10).id();
    let b = world.spawn().insert(POSITION, 2).id();
    let c = world.spawn().insert(POSITION, 3).insert(VELOCITY, 30).insert(FROZEN, 0).id();
    (world, a, b, c)
}

#[test]
fn query_iter_yields_matching_entities_in_slot_order() {
    let (mut world, a, b, c) = world_with_three();
    let state = QueryState::new(vec![POSITION], vec![], vec![], vec![]);
    let query = Query::new(&mut world, &state, SystemTicks::new(0, 0));
    assert_eq!(query.iter(), vec![a, b, c]);

    let state = QueryState::new(vec![POSITION], vec![VELOCITY], vec![], vec![FROZEN]);
    let query = Query::new(&mut world, &state, SystemTicks::new(0, 0));
    assert_eq!(query.iter(), vec![a]);
    assert!(!query.is_empty());
}

#[test]
fn query_skips_despawned_entities() {
    let (mut world, a, _b, c) = world_with_three();
    world.despawn(a);
    let state = QueryState::new(vec![VELOCITY], vec![], vec![], vec![]);
    let query = Query::new(&mut world, &state, SystemTicks::new(0, 0));
    assert_eq!(query.iter(), vec![c]);
}

#[test]
fn query_get_single() {
    let (mut world, a, _b, _c) = world_with_three();
    let state = QueryState::new(vec![VELOCITY], vec![], vec![], vec![FROZEN]);
    let query = Query::new(&mut world, &state, SystemTicks::new(0, 0));
    assert_eq!(query.get_single(), Ok(a));
    assert_eq!(query.single(), a);

    let state = QueryState::new(vec![POSITION], vec![], vec![], vec![]);
    let query = Query::new(&mut world, &state, SystemTicks::new(0, 0));
    assert_eq!(query.get_single(), Err(QuerySingleError::MultipleEntities));

    let state = QueryState::new(vec![], vec![], vec![FROZEN, VELOCITY], vec![POSITION]);
    let query = Query::new(&mut world, &state, SystemTicks::new(0, 0));
    assert_eq!(query.get_single(), Err(QuerySingleError::NoEntities));
    assert!(query.is_empty());
}

#[test]
fn query_get_entity() {
    let (mut world, a, b, c) = world_with_three();
    let state = QueryState::new(vec![VELOCITY], vec![], vec![], vec![]);
    let query = Query::new(&mut world, &state, SystemTicks::new(0, 0));
    assert_eq!(query.get(a), Ok(a));
    assert_eq!(query.get(c), Ok(c));
    assert_eq!(query.get(b), Err(QueryEntityError::QueryDoesNotMatch));
    assert_eq!(query.get(Entity::from_raw(7)), Err(QueryEntityError::NoSuchEntity));
}

#[test]
fn query_get_component_errors() {
    let (mut world, a, b, _c) = world_with_three();
    let stale = a;
    let state = QueryState::new(vec![POSITION], vec![], vec![], vec![]);
    {
        let query = Query::new(&mut world, &state, SystemTicks::new(0, 0));
        assert_eq!(query.get_component(a, POSITION), Ok(&1));
        assert_eq!(query.get_component(a, VELOCITY), Err(QueryComponentError::MissingReadAccess));
    }
    let state = QueryState::new(vec![POSITION, VELOCITY], vec![], vec![], vec![]);
    {
        let query = Query::new(&mut world, &state, SystemTicks::new(0, 0));
        assert_eq!(query.get_component(b, VELOCITY), Err(QueryComponentError::MissingComponent));
    }
    world.despawn(a);
    let query = Query::new(&mut world, &state, SystemTicks::new(0, 0));
    assert_eq!(query.get_component(stale, POSITION), Err(QueryComponentError::NoSuchEntity));
}

#[test]
fn query_get_component_mut_writes_through() {
    let (mut world, a, b, _c) = world_with_three();
    let state = QueryState::new(vec![], vec![POSITION], vec![], vec![]);
    {
        let mut query = Query::new(&mut world, &state, SystemTicks::new(0, 0));
        *query.get_component_mut(a, POSITION).unwrap() = 100;
        assert_eq!(
            query.get_component_mut(a, VELOCITY).err(),
            Some(QueryComponentError::MissingWriteAccess)
        );
        assert_eq!(query.get_single_mut(), Err(QuerySingleError::MultipleEntities));
    }
    assert_eq!(world.get_component(a, POSITION), Some(&100));
    assert_eq!(world.get_component(b, POSITION), Some(&2));

    let read_only = QueryState::new(vec![POSITION], vec![], vec![], vec![]);
    let mut query = Query::new(&mut world, &read_only, SystemTicks::new(0, 0));
    assert_eq!(
        query.get_component_mut(b, POSITION).err(),
        Some(QueryComponentError::MissingWriteAccess)
    );
}

#[test]
fn query_state_access_records_reads_and_writes() {
    let state = QueryState::new(vec![POSITION], vec![VELOCITY], vec![FROZEN], vec![]);
    assert!(state.component_access.has_read(POSITION));
    assert!(state.component_access.has_read(VELOCITY));
    assert!(!state.component_access.has_write(POSITION));
    assert!(state.component_access.has_write(VELOCITY));
    assert!(!state.component_access.has_read(FROZEN));
}

#[test]
fn query_state_registers_access_with_system() {
    let mut meta = SystemMeta::new(String::from("movement"));
    let moving = QueryState::new(vec![POSITION], vec![VELOCITY], vec![], vec![]);
    let moving = init_query_state(moving, &mut meta);
    assert!(meta.component_access.has_read(POSITION));
    assert!(meta.component_access.has_write(VELOCITY));
    let other = QueryState::new(vec![POSITION], vec![], vec![], vec![]);
    assert!(meta.component_access.is_compatible(&other.component_access));
    let conflicting = QueryState::new(vec![VELOCITY], vec![], vec![], vec![]);
    assert!(!meta.component_access.is_compatible(&conflicting.component_access));
    assert_eq!(moving.writes, vec![VELOCITY]);
}

#[test]
fn world_query_has_no_filter() {
    let (mut world, a, b, c) = world_with_three();
    let state = world.query(vec![POSITION], vec![]);
    assert!(state.with.is_empty() && state.without.is_empty());
    let query = Query::new(&mut world, &state, SystemTicks::new(0, 0));
    assert_eq!(query.iter(), vec![a, b, c]);
}

#[test]
fn query_get_component_of_unregistered_type_is_missing() {
    let (mut world, a, _b, _c) = world_with_three();
    const SHIELD: u32 = 9;
    let state = QueryState::new(vec![POSITION], vec![], vec![], vec![]);
    {
        let mut query = Query::new(&mut world, &state, SystemTicks::new(0, 0));
        assert_eq!(query.get_component(a, SHIELD), Err(QueryComponentError::MissingComponent));
        assert_eq!(query.get_component_mut(a, SHIELD).err(), Some(QueryComponentError::MissingComponent));
    }
    assert!(!world.is_registered(SHIELD));
    assert_eq!(world.register_component(SHIELD), SHIELD);
    assert!(world.is_registered(SHIELD));
    let query = Query::new(&mut world, &state, SystemTicks::new(0, 0));
    assert_eq!(query.get_component(a, SHIELD), Err(QueryComponentError::MissingReadAccess));
}
