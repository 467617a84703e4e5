use std::collections::HashMap;

use quad::ecs::entity::Entity;
use quad::ecs::world::World;
use quad::render::visibility::{
    check_visibility, visibility_propagate_system, ComputedVisibility, Visibility,
    VisibilityBundle, VisibilityColumns, VisibleEntities,
};

fn add(cols: &mut VisibilityColumns, e: Entity, v: Visibility) {
    cols.visibility.insert(e.id, v);
    cols.computed.insert(e.id, ComputedVisibility::default());
}

fn in_hierarchy(cols: &VisibilityColumns, e: Entity) -> bool {
    cols.computed[&e.id].is_visible_in_hierarchy()
}

#[test]
fn computed_visibility_flags() {
    let mut c = ComputedVisibility::hidden();
    assert!(!c.is_visible_in_view());
    assert!(!c.is_visible_in_hierarchy());
    assert!(!c.is_visible());
    c.set_visible_in_view();
    assert!(c.is_visible_in_view());
    assert!(!c.is_visible());
    assert_eq!(ComputedVisibility::default(), ComputedVisibility::hidden());
    assert_eq!(Visibility::default(), Visibility::Inherited);
    let bundle = VisibilityBundle::default();
    assert_eq!(bundle.visibility, Visibility::Inherited);
    assert!(!bundle.computed.is_visible_in_hierarchy());
}

#[test]
fn hidden_root_hides_all_descendants() {
    let mut world = World::<u32>::new();
    let grandchild = world.spawn().id();
    let shown = world.spawn().id();
    let child = world.spawn().push_child(grandchild).id();
    let root = world.spawn().push_children(&[child, shown]).id();
    let mut cols = VisibilityColumns::new();
    add(&mut cols, root, Visibility::Hidden);
    add(&mut cols, child, Visibility::Inherited);
    add(&mut cols, grandchild, Visibility::Inherited);
    add(&mut cols, shown, Visibility::Visible);

    visibility_propagate_system(&world, &mut cols);

    assert!(!in_hierarchy(&cols, root));
    assert!(!in_hierarchy(&cols, child));
    assert!(!in_hierarchy(&cols, grandchild));
    assert!(!in_hierarchy(&cols, shown));
}

#[test]
fn visible_entities_under_a_visible_root_are_visible() {
    let mut world = World::<u32>::new();
    let grandchild = world.spawn().id();
    let child = world.spawn().push_child(grandchild).id();
    let root = world.spawn().push_child(child).id();
    let mut cols = VisibilityColumns::new();
    add(&mut cols, root, Visibility::Visible);
    add(&mut cols, child, Visibility::Inherited);
    add(&mut cols, grandchild, Visibility::Visible);

    visibility_propagate_system(&world, &mut cols);

    assert!(in_hierarchy(&cols, root));
    assert!(in_hierarchy(&cols, child));
    assert!(in_hierarchy(&cols, grandchild));
}

#[test]
fn visible_root_and_hidden_middle() {
    let mut world = World::<u32>::new();
    let grandchild = world.spawn().id();
    let child = world.spawn().push_child(grandchild).id();
    let root = world.spawn().push_child(child).id();
    let lone = world.spawn().id();
    let mut cols = VisibilityColumns::new();
    add(&mut cols, root, Visibility::Inherited);
    add(&mut cols, child, Visibility::Hidden);
    add(&mut cols, grandchild, Visibility::Inherited);
    add(&mut cols, lone, Visibility::Visible);

    visibility_propagate_system(&world, &mut cols);

    assert!(in_hierarchy(&cols, root));
    assert!(!in_hierarchy(&cols, child));
    assert!(!in_hierarchy(&cols, grandchild));
    assert!(in_hierarchy(&cols, lone));
}

#[test]
fn propagation_resets_view_flag_and_skips_entities_without_components() {
    let mut world = World::<u32>::new();
    let bare = world.spawn().id();
    let child = world.spawn().id();
    let root = world.spawn().push_children(&[bare, child]).id();
    let mut cols = VisibilityColumns::new();
    add(&mut cols, root, Visibility::Visible);
    add(&mut cols, child, Visibility::Inherited);
    let mut seen = ComputedVisibility::hidden();
    seen.set_visible_in_view();
    cols.computed.insert(child.id, seen);

    visibility_propagate_system(&world, &mut cols);

    assert!(in_hierarchy(&cols, child));
    assert!(!cols.computed[&child.id].is_visible_in_view());
    assert!(!cols.computed.contains_key(&bare.id));
}

#[test]
fn check_visibility_fills_each_view() {
    let mut world = World::<u32>::new();
    let a = world.spawn().id();
    let b = world.spawn().id();
    let camera = world.spawn().id();
    let mut cols = VisibilityColumns::new();
    add(&mut cols, a, Visibility::Visible);
    add(&mut cols, b, Visibility::Hidden);
    visibility_propagate_system(&world, &mut cols);

    let mut views = HashMap::new();
    views.insert(camera.id, VisibleEntities { entities: vec![b] });
    check_visibility(&world, &mut cols, &mut views);

    let visible = &views[&camera.id];
    assert_eq!(visible.iter(), &[a]);
    assert_eq!(visible.len(), 1);
    assert!(!visible.is_empty());
    assert!(cols.computed[&a.id].is_visible());
    assert!(!cols.computed[&b.id].is_visible_in_view());
}

#[test]
fn check_visibility_without_views_changes_nothing() {
    let mut world = World::<u32>::new();
    let a = world.spawn().id();
    let mut cols = VisibilityColumns::new();
    add(&mut cols, a, Visibility::Visible);
    visibility_propagate_system(&world, &mut cols);
    let mut views: HashMap<u32, VisibleEntities> = HashMap::new();
    check_visibility(&world, &mut cols, &mut views);
    assert!(!cols.computed[&a.id].is_visible_in_view());
    assert!(VisibleEntities::default().is_empty());
}
