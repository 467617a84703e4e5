use std::collections::HashMap;

use quad::ecs::command::{CommandQueue, Commands};
use quad::ecs::entity::Entity;
use quad::ecs::world::World;
use quad::render::camera::{camera_needs_update, changed_windows, DepthCalculation, WindowId};
use quad::render::draw::{add_to_batch, BatchResult, BatchedPhaseItem, DrawFunctionId, DrawFunctionsInternal};
use quad::render::graph::{Edge, NodeId};
use quad::render::pipeline::{clear_plan, extract_core_pipeline_camera_phases, RenderTargetClearColors, Transparent2d};
use quad::render::pipeline_cache::{
    AssetEvent, CachedPipelineState, RenderPipelineCache, RenderPipelineDescriptor, RenderPipelineError,
};
use quad::render::renderer::render_system;
use quad::render::resource::{CachedPipelineId, IdCounter, VertexBufferLayout};
use quad::render::shader::{ProcessedShader, Shader, ShaderLoadError, ShaderLoader, ShaderProcessor};
use quad::render::view::{MainWorld, Msaa};

#[test]
fn draw_functions_by_id_and_type() {
    let mut draws = DrawFunctionsInternal::new();
    let first = draws.add(10, "sprite");
    let second = draws.add_with(20, "mesh");
    assert_eq!(first, DrawFunctionId(0));
    assert_eq!(second, DrawFunctionId(1));
    assert_eq!(draws.get_id(10), Some(first));
    assert_eq!(draws.get_id(20), Some(second));
    assert_eq!(draws.get_id(30), None);
    *draws.get_mut(second).unwrap() = "text";
    assert_eq!(draws.draw_functions, vec!["sprite", "text"]);
    assert!(draws.get_mut(DrawFunctionId(2)).is_none());
}

#[test]
fn batching_joins_meeting_ranges_of_one_entity() {
    let e = Entity::from_raw(1);
    let other = Entity::from_raw(2);
    let mut range = Some(0..4);
    assert_eq!(add_to_batch(e, &mut range, e, &Some(4..6)), BatchResult::Success);
    assert_eq!(range, Some(0..6));
    assert_eq!(add_to_batch(e, &mut range, e, &Some(8..10)), BatchResult::IncompatibleItems);
    assert_eq!(range, Some(0..6));
    let mut before = Some(6..9);
    assert_eq!(add_to_batch(e, &mut before, e, &Some(2..6)), BatchResult::Success);
    assert_eq!(before, Some(2..9));
    assert_eq!(add_to_batch(e, &mut range, other, &Some(6..7)), BatchResult::IncompatibleItems);
    let mut none = None;
    assert_eq!(add_to_batch(e, &mut none, e, &Some(0..1)), BatchResult::IncompatibleItems);
    assert_eq!(none, None);
}

#[test]
fn transparent_items_batch_through_the_trait() {
    let e = Entity::from_raw(3);
    let mut item = Transparent2d {
        sort_key: 1u32,
        entity: e,
        pipeline: CachedPipelineId(0),
        draw_function: DrawFunctionId(0),
        batch_range: Some(0..3),
    };
    let next = Transparent2d {
        sort_key: 2u32,
        entity: e,
        pipeline: CachedPipelineId(0),
        draw_function: DrawFunctionId(0),
        batch_range: Some(3..5),
    };
    assert_eq!(BatchedPhaseItem::add_to_batch(&mut item, &next), BatchResult::Success);
    assert_eq!(item.batch_range, Some(0..5));
    assert_eq!(CachedPipelineId::invalid(), CachedPipelineId(usize::MAX));
}

#[test]
fn edge_nodes() {
    let slot = Edge::SlotEdge { input_node: NodeId(1), input_index: 0, output_node: NodeId(2), output_index: 3 };
    let node = Edge::NodeEdge { input_node: NodeId(4), output_node: NodeId(5) };
    assert_eq!(slot.get_input_node(), NodeId(1));
    assert_eq!(slot.get_output_node(), NodeId(2));
    assert_eq!(node.get_input_node(), NodeId(4));
    assert_eq!(node.get_output_node(), NodeId(5));
}

#[test]
fn shaders_load_and_process() {
    let shader = Shader::from_wgsl(String::from("fn main() {}"));
    let processed = ShaderProcessor.process(&shader, &[String::from("DEF")]).unwrap();
    assert_eq!(processed, ProcessedShader(String::from("fn main() {}")));
    assert_eq!(processed.get_source(), "fn main() {}");
    let loaded = ShaderLoader.load(b"@vertex".to_vec()).unwrap();
    assert_eq!(loaded.source.0, "@vertex");
    assert_eq!(ShaderLoader.load(vec![0xff, 0xfe]).err(), Some(ShaderLoadError::InvalidUtf8));
}

#[test]
fn id_counter_counts_up() {
    let mut ids = IdCounter::new();
    assert_eq!(ids.fetch_next(), 0);
    assert_eq!(ids.fetch_next(), 1);
    assert_eq!(ids.fetch_next(), 2);
}

#[test]
fn vertex_layout_is_densely_packed() {
    let layout = VertexBufferLayout::from_vertex_formats("vertex", vec![('p', 12), ('n', 12), ('t', 8)]);
    assert_eq!(layout.array_stride, 32);
    assert_eq!(layout.step_mode, "vertex");
    let offsets: Vec<u64> = layout.attributes.iter().map(|a| a.offset).collect();
    let locations: Vec<u32> = layout.attributes.iter().map(|a| a.shader_location).collect();
    let formats: Vec<char> = layout.attributes.iter().map(|a| a.format).collect();
    assert_eq!(offsets, vec![0, 12, 24]);
    assert_eq!(locations, vec![0, 1, 2]);
    assert_eq!(formats, vec!['p', 'n', 't']);
}

#[test]
fn changed_windows_latest_first_once_each() {
    let resized = [WindowId(1), WindowId(2), WindowId(1)];
    let created = [WindowId(3), WindowId(2)];
    assert_eq!(changed_windows(&resized, &created), vec![WindowId(1), WindowId(2), WindowId(3)]);
    assert_eq!(changed_windows(&[], &[WindowId(7), WindowId(8)]), vec![WindowId(8), WindowId(7)]);
}

#[test]
fn camera_update_decision() {
    let changed = vec![WindowId(1)];
    let camera = Entity::from_raw(4);
    let added = vec![camera];
    assert!(camera_needs_update(true, WindowId(1), &changed, Entity::from_raw(9), &vec![], false));
    assert!(camera_needs_update(true, WindowId(2), &changed, camera, &added, false));
    assert!(camera_needs_update(true, WindowId(2), &changed, Entity::from_raw(9), &added, true));
    assert!(!camera_needs_update(true, WindowId(2), &changed, Entity::from_raw(9), &added, false));
    assert!(!camera_needs_update(false, WindowId(1), &changed, camera, &added, true));
}

#[test]
fn defaults() {
    assert_eq!(Msaa::default().samples, 4);
    assert_eq!(DepthCalculation::default(), DepthCalculation::Distance);
    let main: MainWorld<u32> = MainWorld::default();
    assert_eq!(main.0.len(), 0);
    let mut colors = RenderTargetClearColors::default();
    assert_eq!(colors.get(1), None);
    colors.insert(1, (0.1f32, 0.2f32));
    assert_eq!(colors.get(1), Some(&(0.1, 0.2)));
}

#[test]
fn active_camera_gets_its_phase() {
    let mut world = World::<u32>::new();
    let mut queue = CommandQueue::default();
    let camera = world.spawn().id();
    {
        let mut commands = Commands::new(&mut queue, &mut world);
        extract_core_pipeline_camera_phases(&mut commands, Some(camera), 7, 70);
        extract_core_pipeline_camera_phases(&mut commands, None, 8, 80);
    }
    assert_eq!(queue.len(), 2);
    queue.apply(&mut world);
    assert_eq!(world.get_component(camera, 7), Some(&70));
    assert_eq!(world.get_component(camera, 8), None);
}

fn descriptor(vertex: u64, fragment: Option<u64>, name: u32) -> RenderPipelineDescriptor<u32> {
    RenderPipelineDescriptor { vertex_shader: vertex, fragment_shader: fragment, state: name }
}

#[test]
fn pipelines_compile_once_their_shaders_are_loaded() {
    let mut cache: RenderPipelineCache<u32, (u32, usize, Option<usize>), usize> = RenderPipelineCache::new();
    let create_module = |s: &Shader| s.source.0.len();
    let create_pipeline = |d: &u32, v: &usize, f: Option<&usize>| (*d, *v, f.copied());

    let first = cache.queue(descriptor(1, Some(2), 100));
    let second = cache.queue(descriptor(1, None, 200));
    assert_eq!(first, CachedPipelineId(0));
    assert_eq!(second, CachedPipelineId(1));
    assert!(matches!(cache.get_state(first), CachedPipelineState::Queued));

    cache.process_queue(&create_module, &create_pipeline);
    assert!(matches!(
        cache.get_state(first),
        CachedPipelineState::Failed(RenderPipelineError::ShaderNotLoaded(1))
    ));
    assert!(cache.get(second).is_none());

    let mut assets = HashMap::new();
    assets.insert(1u64, Shader::from_wgsl(String::from("vert")));
    cache.extract_shaders(&[AssetEvent::Created { handle: 1 }], &assets);
    cache.process_queue(&create_module, &create_pipeline);
    assert!(matches!(
        cache.get_state(first),
        CachedPipelineState::Failed(RenderPipelineError::ShaderNotLoaded(2))
    ));
    assert_eq!(cache.get(second), Some(&(200, 4, None)));

    assets.insert(2u64, Shader::from_wgsl(String::from("fragment")));
    cache.extract_shaders(&[AssetEvent::Modified { handle: 2 }], &assets);
    cache.process_queue(&create_module, &create_pipeline);
    assert_eq!(cache.get(first), Some(&(100, 4, Some(8))));
    assert_eq!(cache.get_state(first).unwrap(), &(100, 4, Some(8)));
    assert_eq!(cache.get_descriptor(second).state, 200);

    cache.set_shader(1, &Shader::from_wgsl(String::from("vertex2")));
    assert!(matches!(cache.get_state(first), CachedPipelineState::Queued));
    assert!(matches!(cache.get_state(second), CachedPipelineState::Queued));
    cache.process_queue(&create_module, &create_pipeline);
    assert_eq!(cache.get(second), Some(&(200, 7, None)));

    cache.extract_shaders(&[AssetEvent::Removed { handle: 2 }], &assets);
    assert!(matches!(cache.get_state(first), CachedPipelineState::Queued));
    assert_eq!(cache.get(second), Some(&(200, 7, None)));
    cache.process_queue(&create_module, &create_pipeline);
    assert!(matches!(
        cache.get_state(first),
        CachedPipelineState::Failed(RenderPipelineError::ShaderNotLoaded(2))
    ));
}

#[test]
fn clear_plan_uses_target_colors_then_default() {
    let mut colors: RenderTargetClearColors<u32> = RenderTargetClearColors::default();
    colors.insert(1, 100);
    colors.insert(5, 500);
    colors.insert(7, 700);
    let views = [Some(1), None, Some(2)];
    let windows = [2, 3, 7];
    let (view_colors, mut rest) = clear_plan(&views, &colors, 9, &windows);
    assert_eq!(view_colors, vec![100, 9, 9]);
    rest.sort();
    assert_eq!(rest, vec![(3, 9), (5, 500), (7, 700), (7, 700)]);
}

#[test]
fn clear_plan_with_nothing_to_clear() {
    let colors: RenderTargetClearColors<u32> = RenderTargetClearColors::default();
    let (view_colors, rest) = clear_plan(&[], &colors, 0, &[]);
    assert!(view_colors.is_empty());
    assert!(rest.is_empty());
}

#[test]
fn render_system_drops_view_targets_and_takes_textures() {
    let mut world: World<u32> = World::new();
    let camera = world.spawn().insert(7, 70).insert(8, 80).id();
    let sprite = world.spawn().insert(8, 81).id();
    let mut textures = vec![Some(1u8), None, Some(3u8)];
    let presented = render_system(&mut world, 7, &mut textures);
    assert_eq!(presented, vec![1, 3]);
    assert_eq!(textures, vec![None, None, None]);
    assert!(!world.entity(camera).contains(7));
    assert_eq!(world.entity(camera).get(8), Some(&80));
    assert_eq!(world.entity(sprite).get(8), Some(&81));
    assert_eq!(world.removed(7), &[camera][..]);
    assert!(world.removed(8).is_empty());
}

#[test]
fn clear_plan_lists_each_target_as_often_as_given() {
    let mut colors: RenderTargetClearColors<u32> = RenderTargetClearColors::default();
    colors.insert(4, 40);
    let (_views, rest) = clear_plan(&[None], &colors, 0, &[4, 6, 6, 4]);
    assert_eq!(rest.iter().filter(|p| p.0 == 4).count(), 3);
    assert_eq!(rest.iter().filter(|p| p.0 == 6).count(), 2);
    assert_eq!(rest.len(), 5);
}
