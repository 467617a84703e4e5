//! Which entities are visible: the visibility an entity asks for, what follows from its
//! ancestors, and which entities each view sees.
use std::collections::HashMap;
use vstd::prelude::*;

use crate::ecs::entity::{Entity, SlotState};
use crate::ecs::maps::hash_map_get_mut;
use crate::ecs::query::slot_entity;
use crate::ecs::world::{World, WorldView};
use vstd::set_lib::{lemma_int_range, lemma_len_subset, set_int_range};

verus! {

broadcast use vstd::std_specs::hash::group_hash_axioms;

/// The visibility an entity asks for.
#[derive(Clone, Copy, Debug, PartialEq, Eq, Structural)]
pub enum Visibility {
    /// Visible when its parent is, and visible when it has no parent.
    Inherited,
    /// Hidden, and so is everything below it.
    Hidden,
    /// Visible, unless an ancestor is hidden.
    Visible,
}

impl Default for Visibility {
    fn default() -> (r: Visibility)
        ensures
            r == Visibility::Inherited,
    {
        Visibility::Inherited
    }
}

/// The bit of the flags set when some view sees the entity.
pub const VISIBLE_IN_VIEW: u8 = 1;

/// The bit of the flags set when the entity and its ancestors let it be seen.
pub const VISIBLE_IN_HIERARCHY: u8 = 2;

/// Whether an entity is visible, worked out from its hierarchy and the views.
#[derive(Clone, Copy, Debug, PartialEq, Eq, Structural)]
pub struct ComputedVisibility {
    flags: u8,
}

/// The two facts a computed visibility records.
pub struct ComputedVisibilityView {
    pub in_view: bool,
    pub in_hierarchy: bool,
}

impl View for ComputedVisibility {
    type V = ComputedVisibilityView;

    closed spec fn view(&self) -> ComputedVisibilityView {
        ComputedVisibilityView {
            in_view: self.flags & VISIBLE_IN_VIEW == VISIBLE_IN_VIEW,
            in_hierarchy: self.flags & VISIBLE_IN_HIERARCHY == VISIBLE_IN_HIERARCHY,
        }
    }
}

/// The value a computed visibility is reset to at the start of a frame: seen by no view,
/// and visible in the hierarchy as `in_hierarchy` says.
pub closed spec fn reset_value(in_hierarchy: bool) -> ComputedVisibility {
    ComputedVisibility { flags: if in_hierarchy { VISIBLE_IN_HIERARCHY } else { 0 } }
}

/// What a reset value records.
pub proof fn lemma_reset_value(in_hierarchy: bool)
    ensures
        reset_value(in_hierarchy)@.in_hierarchy == in_hierarchy,
        !reset_value(in_hierarchy)@.in_view,
{
    assert(2u8 & 2u8 == 2u8) by (bit_vector);
    assert(2u8 & 1u8 == 0u8) by (bit_vector);
    assert(0u8 & 2u8 == 0u8) by (bit_vector);
    assert(0u8 & 1u8 == 0u8) by (bit_vector);
}

impl ComputedVisibility {
    #[verifier::type_invariant]
    spec fn flags_known(&self) -> bool {
        self.flags < 4
    }

    /// Seen by no view and hidden in the hierarchy.
    pub fn hidden() -> (r: ComputedVisibility)
        ensures
            !r@.in_view,
            !r@.in_hierarchy,
            r == reset_value(false),
    {
        proof {
            lemma_reset_value(false);
        }
        ComputedVisibility { flags: 0 }
    }

    /// Whether the entity is visible in the hierarchy and seen by some view.
    pub fn is_visible(&self) -> (r: bool)
        ensures
            r == (self@.in_view && self@.in_hierarchy),
    {
        proof {
            use_type_invariant(self);
            let f = self.flags;
            assert(f < 4 ==> ((f == 3) == (f & 1 == 1 && f & 2 == 2))) by (bit_vector);
            assert(1u8 | 2u8 == 3u8) by (bit_vector);
        }
        self.flags == VISIBLE_IN_VIEW | VISIBLE_IN_HIERARCHY
    }

    /// Whether the entity and its ancestors let it be seen.
    pub fn is_visible_in_hierarchy(&self) -> (r: bool)
        ensures
            r == self@.in_hierarchy,
    {
        self.flags & VISIBLE_IN_HIERARCHY == VISIBLE_IN_HIERARCHY
    }

    /// Whether some view sees the entity.
    pub fn is_visible_in_view(&self) -> (r: bool)
        ensures
            r == self@.in_view,
    {
        self.flags & VISIBLE_IN_VIEW == VISIBLE_IN_VIEW
    }

    /// Records that some view sees the entity.
    pub fn set_visible_in_view(&mut self)
        ensures
            final(self)@.in_view,
            final(self)@.in_hierarchy == old(self)@.in_hierarchy,
            *final(self) == seen_value(*old(self)),
    {
        proof {
            use_type_invariant(&*self);
            let f = self.flags;
            assert(f < 4 ==> ((f | 1) < 4 && (f | 1) & 1 == 1 && ((f | 1) & 2 == 2) == (f & 2 == 2)))
                by (bit_vector);
        }
        self.flags = self.flags | VISIBLE_IN_VIEW;
    }

    /// Seen by no view, and visible in the hierarchy as `visible_in_hierarchy` says.
    fn reset(&mut self, visible_in_hierarchy: bool)
        ensures
            *final(self) == reset_value(visible_in_hierarchy),
    {
        self.flags = if visible_in_hierarchy {
            VISIBLE_IN_HIERARCHY
        } else {
            0
        };
    }
}

impl Default for ComputedVisibility {
    fn default() -> (r: ComputedVisibility)
        ensures
            r == reset_value(false),
    {
        ComputedVisibility::hidden()
    }
}

/// The visibility an entity asks for together with the one computed for it.
pub struct VisibilityBundle {
    pub visibility: Visibility,
    pub computed: ComputedVisibility,
}

impl Default for VisibilityBundle {
    fn default() -> (r: VisibilityBundle)
        ensures
            r.visibility == Visibility::Inherited,
            r.computed == reset_value(false),
    {
        VisibilityBundle { visibility: Visibility::default(), computed: ComputedVisibility::default() }
    }
}

/// The entities a view sees, in the order they were found.
#[derive(Clone, Debug)]
pub struct VisibleEntities {
    pub entities: Vec<Entity>,
}

impl Default for VisibleEntities {
    fn default() -> (r: VisibleEntities)
        ensures
            r.entities@ == Seq::<Entity>::empty(),
    {
        VisibleEntities { entities: Vec::new() }
    }
}

impl VisibleEntities {
    pub fn iter(&self) -> (r: &[Entity])
        ensures
            r@ == self.entities@,
    {
        self.entities.as_slice()
    }

    pub fn len(&self) -> (r: usize)
        ensures
            r == self.entities@.len(),
    {
        self.entities.len()
    }

    pub fn is_empty(&self) -> (r: bool)
        ensures
            r == (self.entities@.len() == 0),
    {
        self.entities.len() == 0
    }
}

/// The `Visibility` and `ComputedVisibility` components of a world's entities, by slot.
pub struct VisibilityColumns {
    pub visibility: HashMap<u32, Visibility>,
    pub computed: HashMap<u32, ComputedVisibility>,
}

/// The components of a `VisibilityColumns`, by slot.
pub struct VisibilityColumnsView {
    pub visibility: Map<u32, Visibility>,
    pub computed: Map<u32, ComputedVisibility>,
}

impl View for VisibilityColumns {
    type V = VisibilityColumnsView;

    open spec fn view(&self) -> VisibilityColumnsView {
        VisibilityColumnsView { visibility: self.visibility@, computed: self.computed@ }
    }
}

impl VisibilityColumns {
    pub fn new() -> (r: VisibilityColumns)
        ensures
            r@.visibility == Map::<u32, Visibility>::empty(),
            r@.computed == Map::<u32, ComputedVisibility>::empty(),
    {
        VisibilityColumns { visibility: HashMap::new(), computed: HashMap::new() }
    }
}

/// The rule of visibility inheritance: an entity with a parent is visible in the hierarchy
/// when it is not hidden and its parent is visible in the hierarchy, so an entity is hidden
/// as soon as it or one of its ancestors is.
pub open spec fn inherits(v: Visibility, parent_visible: bool) -> bool {
    parent_visible && v != Visibility::Hidden
}

/// `e` is an alive entity with both visibility components and a parent; `vis` holds the
/// visibility components and `ks` the slots that have a computed visibility.
pub open spec fn is_child_node<V>(w: WorldView<V>, vis: Map<u32, Visibility>, ks: Set<u32>, e: Entity) -> bool {
    &&& w.alive(e)
    &&& vis.contains_key(e.id)
    &&& ks.contains(e.id)
    &&& w.parent_of(e).is_some()
}

/// Slot `i` holds an alive entity with both visibility components and no parent.
pub open spec fn is_root_slot<V>(w: WorldView<V>, vis: Map<u32, Visibility>, ks: Set<u32>, i: int) -> bool {
    &&& w.metas[i].state == SlotState::Alive
    &&& vis.contains_key(i as u32)
    &&& ks.contains(i as u32)
    &&& w.data[i].parent.is_none()
}

/// The computed visibilities written while propagating to `e`, reached as a child of an
/// entity whose visibility in the hierarchy is `parent_visible`, within depth `fuel`.
pub open spec fn propagated_node<V>(
    w: WorldView<V>,
    vis: Map<u32, Visibility>,
    ks: Set<u32>,
    e: Entity,
    parent_visible: bool,
    fuel: nat,
) -> Map<u32, ComputedVisibility>
    decreases fuel, 0nat, 0nat,
{
    if fuel == 0 || !is_child_node(w, vis, ks, e) {
        Map::empty()
    } else {
        let h = inherits(vis[e.id], parent_visible);
        map![e.id => reset_value(h)].union_prefer_right(
            propagated_list(w, vis, ks, w.children_or_empty(e), h, (fuel - 1) as nat),
        )
    }
}

/// The computed visibilities written while propagating to the entities of `cs` in order.
pub open spec fn propagated_list<V>(
    w: WorldView<V>,
    vis: Map<u32, Visibility>,
    ks: Set<u32>,
    cs: Seq<Entity>,
    parent_visible: bool,
    fuel: nat,
) -> Map<u32, ComputedVisibility>
    decreases fuel, 1nat, cs.len(),
{
    if cs.len() == 0 {
        Map::empty()
    } else {
        propagated_list(w, vis, ks, cs.drop_last(), parent_visible, fuel).union_prefer_right(
            propagated_node(w, vis, ks, cs.last(), parent_visible, fuel),
        )
    }
}

/// Propagating to `e`, reached as a child of `parent`, does not panic: every entity it
/// reaches names the entity it was reached from as its parent, within depth `fuel`.
pub open spec fn node_ok<V>(
    w: WorldView<V>,
    vis: Map<u32, Visibility>,
    ks: Set<u32>,
    e: Entity,
    parent: Entity,
    fuel: nat,
) -> bool
    decreases fuel, 0nat, 0nat,
{
    fuel > 0 && (is_child_node(w, vis, ks, e) ==> w.parent_of(e) == Some(parent) && list_ok(
        w,
        vis,
        ks,
        w.children_or_empty(e),
        e,
        (fuel - 1) as nat,
    ))
}

/// Propagating to each entity of `cs` as a child of `parent` does not panic.
pub open spec fn list_ok<V>(
    w: WorldView<V>,
    vis: Map<u32, Visibility>,
    ks: Set<u32>,
    cs: Seq<Entity>,
    parent: Entity,
    fuel: nat,
) -> bool
    decreases fuel, 1nat, 0nat,
{
    forall|k: int| 0 <= k < cs.len() ==> node_ok(w, vis, ks, #[trigger] cs[k], parent, fuel)
}

/// The computed visibilities written for the root in slot `i` and below it.
pub open spec fn propagated_root<V>(w: WorldView<V>, vis: Map<u32, Visibility>, ks: Set<u32>, i: int) -> Map<
    u32,
    ComputedVisibility,
> {
    let r = slot_entity(w, i);
    let h = vis[r.id] != Visibility::Hidden;
    map![r.id => reset_value(h)].union_prefer_right(
        propagated_list(w, vis, ks, w.children_or_empty(r), h, w.tree_fuel()),
    )
}

/// The computed visibilities written for the roots among the first `n` slots, in slot
/// order, and below them.
pub open spec fn propagated_upto<V>(w: WorldView<V>, vis: Map<u32, Visibility>, ks: Set<u32>, n: nat) -> Map<
    u32,
    ComputedVisibility,
>
    decreases n,
{
    if n == 0 {
        Map::empty()
    } else {
        let prev = propagated_upto(w, vis, ks, (n - 1) as nat);
        if is_root_slot(w, vis, ks, n - 1) {
            prev.union_prefer_right(propagated_root(w, vis, ks, n - 1))
        } else {
            prev
        }
    }
}

/// The columns after visibility has been propagated through the world's hierarchy.
pub open spec fn propagated<V>(w: WorldView<V>, c: VisibilityColumnsView) -> VisibilityColumnsView {
    VisibilityColumnsView {
        visibility: c.visibility,
        computed: c.computed.union_prefer_right(
            propagated_upto(w, c.visibility, c.computed.dom(), w.metas.len()),
        ),
    }
}

/// Propagation does not panic: below each root, every entity reached names the entity it
/// was reached from as its parent, and the hierarchy is no deeper than there are slots.
pub open spec fn can_propagate<V>(w: WorldView<V>, c: VisibilityColumnsView) -> bool {
    forall|i: int|
        0 <= i < w.metas.len() && is_root_slot(w, c.visibility, c.computed.dom(), i) ==> list_ok(
            w,
            c.visibility,
            c.computed.dom(),
            w.children_or_empty(#[trigger] slot_entity(w, i)),
            slot_entity(w, i),
            w.tree_fuel(),
        )
}

/// Resets the computed visibility of `e`, reached as a child of `expected_parent`, and of
/// everything below it.
fn propagate_recursive<V>(
    world: &World<V>,
    cols: &mut VisibilityColumns,
    parent_visible: bool,
    e: Entity,
    expected_parent: Entity,
    Ghost(vis): Ghost<Map<u32, Visibility>>,
    Ghost(ks): Ghost<Set<u32>>,
    Ghost(fuel): Ghost<nat>,
)
    requires
        world.wf(),
        old(cols)@.visibility == vis,
        old(cols)@.computed.dom() == ks,
        node_ok(world@, vis, ks, e, expected_parent, fuel),
    ensures
        final(cols)@.visibility == vis,
        final(cols)@.computed == old(cols)@.computed.union_prefer_right(
            propagated_node(world@, vis, ks, e, parent_visible, fuel),
        ),
    decreases fuel, 0nat,
{
    proof {
        world.lemma_wf_view();
    }
    let ghost c0 = cols@.computed;
    if !world.has_entity(e) {
        proof {
            assert(c0.union_prefer_right(Map::empty()) =~= c0);
        }
        return;
    }
    let v = match cols.visibility.get(&e.id) {
        Some(v) => *v,
        None => {
            proof {
                assert(c0.union_prefer_right(Map::empty()) =~= c0);
            }
            return;
        },
    };
    if world.parent_of(e).is_none() {
        proof {
            assert(c0.union_prefer_right(Map::empty()) =~= c0);
        }
        return;
    }
    let visible_in_hierarchy = parent_visible && v != Visibility::Hidden;
    match hash_map_get_mut(&mut cols.computed, e.id) {
        Some(computed) => computed.reset(visible_in_hierarchy),
        None => {
            proof {
                assert(c0.union_prefer_right(Map::empty()) =~= c0);
            }
            return;
        },
    }
    let ghost c1 = cols@.computed;
    proof {
        assert(c1.dom() =~= ks);
    }
    match world.children_of(e) {
        Some(children) => {
            propagate_children(world, cols, visible_in_hierarchy, children, e, Ghost(vis), Ghost(ks), Ghost((fuel - 1) as nat));
        },
        None => {
            proof {
                assert(cols@.computed =~= c1.union_prefer_right(
                    propagated_list(world@, vis, ks, Seq::<Entity>::empty(), visible_in_hierarchy, (fuel - 1) as nat),
                ));
            }
        },
    }
    proof {
        let h = visible_in_hierarchy;
        let rest = propagated_list(world@, vis, ks, world@.children_or_empty(e), h, (fuel - 1) as nat);
        assert(cols@.computed =~= c0.union_prefer_right(map![e.id => reset_value(h)].union_prefer_right(rest)));
    }
}

/// Propagates to each entity of `children` in order, as children of `parent`.
fn propagate_children<V>(
    world: &World<V>,
    cols: &mut VisibilityColumns,
    parent_visible: bool,
    children: &[Entity],
    parent: Entity,
    Ghost(vis): Ghost<Map<u32, Visibility>>,
    Ghost(ks): Ghost<Set<u32>>,
    Ghost(fuel): Ghost<nat>,
)
    requires
        world.wf(),
        old(cols)@.visibility == vis,
        old(cols)@.computed.dom() == ks,
        list_ok(world@, vis, ks, children@, parent, fuel),
    ensures
        final(cols)@.visibility == vis,
        final(cols)@.computed == old(cols)@.computed.union_prefer_right(
            propagated_list(world@, vis, ks, children@, parent_visible, fuel),
        ),
    decreases fuel, 1nat,
{
    let ghost c0 = cols@.computed;
    let ghost cs = children@;
    let mut i: usize = 0;
    proof {
        assert(cs.take(0) =~= Seq::<Entity>::empty());
        assert(c0.union_prefer_right(Map::empty()) =~= c0);
    }
    while i < children.len()
        invariant
            world.wf(),
            cs == children@,
            i <= cs.len(),
            cols@.visibility == vis,
            cols@.computed.dom() == ks,
            list_ok(world@, vis, ks, cs, parent, fuel),
            cols@.computed == c0.union_prefer_right(
                propagated_list(world@, vis, ks, cs.take(i as int), parent_visible, fuel),
            ),
        decreases cs.len() - i,
    {
        let ghost before = cols@.computed;
        proof {
            assert(node_ok(world@, vis, ks, cs[i as int], parent, fuel));
        }
        propagate_recursive(world, cols, parent_visible, children[i], parent, Ghost(vis), Ghost(ks), Ghost(fuel));
        proof {
            let t = cs.take(i + 1);
            assert(t.drop_last() =~= cs.take(i as int));
            assert(t.last() == cs[i as int]);
            lemma_propagated_node_keys(world@, vis, ks, cs[i as int], parent_visible, fuel);
            assert(cols@.computed.dom() =~= ks);
            assert(cols@.computed =~= c0.union_prefer_right(
                propagated_list(world@, vis, ks, t, parent_visible, fuel),
            ));
        }
        i = i + 1;
    }
    proof {
        assert(cs.take(cs.len() as int) =~= cs);
    }
}

/// Propagation writes only slots that have a computed visibility.
proof fn lemma_propagated_node_keys<V>(
    w: WorldView<V>,
    vis: Map<u32, Visibility>,
    ks: Set<u32>,
    e: Entity,
    pv: bool,
    fuel: nat,
)
    ensures
        propagated_node(w, vis, ks, e, pv, fuel).dom().subset_of(ks),
    decreases fuel, 0nat, 0nat,
{
    if fuel > 0 && is_child_node(w, vis, ks, e) {
        let h = inherits(vis[e.id], pv);
        lemma_propagated_list_keys(w, vis, ks, w.children_or_empty(e), h, (fuel - 1) as nat);
    }
}

proof fn lemma_propagated_list_keys<V>(
    w: WorldView<V>,
    vis: Map<u32, Visibility>,
    ks: Set<u32>,
    cs: Seq<Entity>,
    pv: bool,
    fuel: nat,
)
    ensures
        propagated_list(w, vis, ks, cs, pv, fuel).dom().subset_of(ks),
    decreases fuel, 1nat, cs.len(),
{
    if cs.len() > 0 {
        lemma_propagated_list_keys(w, vis, ks, cs.drop_last(), pv, fuel);
        lemma_propagated_node_keys(w, vis, ks, cs.last(), pv, fuel);
    }
}

/// Resets the computed visibility of every entity reachable from a root, one without a
/// parent: a root is visible in the hierarchy unless it is hidden, and below it the rule
/// of `inherits` applies. No entity is left seen by a view.
pub fn visibility_propagate_system<V>(world: &World<V>, cols: &mut VisibilityColumns)
    requires
        world.wf(),
        can_propagate(world@, old(cols)@),
    ensures
        final(cols)@ == propagated(world@, old(cols)@),
{
    proof {
        world.lemma_wf_view();
    }
    let ghost vis = cols@.visibility;
    let ghost ks = cols@.computed.dom();
    let ghost c0 = cols@.computed;
    let n = world.entities().meta_len();
    proof {
        assert(c0.union_prefer_right(Map::empty()) =~= c0);
    }
    for i in 0..n
        invariant
            world.wf(),
            n == world@.metas.len(),
            n <= u32::MAX,
            world@.data.len() == n,
            cols@.visibility == vis,
            cols@.computed.dom() == ks,
            can_propagate(world@, VisibilityColumnsView { visibility: vis, computed: c0 }),
            ks == c0.dom(),
            cols@.computed == c0.union_prefer_right(propagated_upto(world@, vis, ks, i as nat)),
    {
        let ghost before = cols@.computed;
        let meta = world.entities().slot_meta(i as u32);
        let root = Entity { id: i as u32, generation: meta.generation };
        let mut is_root = false;
        if meta.state == SlotState::Alive {
            proof {
                assert(world@.alive(root));
            }
            if world.parent_of(root).is_none() {
                match cols.visibility.get(&root.id) {
                    Some(v) => {
                        let v = *v;
                        let visible_in_hierarchy = v == Visibility::Inherited || v == Visibility::Visible;
                        match hash_map_get_mut(&mut cols.computed, root.id) {
                            Some(computed) => {
                                computed.reset(visible_in_hierarchy);
                                is_root = true;
                            },
                            None => {},
                        }
                        if is_root {
                            let ghost c1 = cols@.computed;
                            proof {
                                assert(c1.dom() =~= ks);
                                assert(is_root_slot(world@, vis, ks, i as int));
                                assert(slot_entity(world@, i as int) == root);
                            }
                            match world.children_of(root) {
                                Some(children) => {
                                    propagate_children(
                                        world,
                                        cols,
                                        visible_in_hierarchy,
                                        children,
                                        root,
                                        Ghost(vis),
                                        Ghost(ks),
                                        Ghost(world@.tree_fuel()),
                                    );
                                },
                                None => {
                                    proof {
                                        assert(cols@.computed =~= c1.union_prefer_right(
                                            propagated_list(world@, vis, ks, Seq::<Entity>::empty(), visible_in_hierarchy, world@.tree_fuel()),
                                        ));
                                    }
                                },
                            }
                            proof {
                                let h = visible_in_hierarchy;
                                let rest = propagated_list(world@, vis, ks, world@.children_or_empty(root), h, world@.tree_fuel());
                                lemma_propagated_list_keys(world@, vis, ks, world@.children_or_empty(root), h, world@.tree_fuel());
                                assert(cols@.computed.dom() =~= ks);
                                assert(propagated_root(world@, vis, ks, i as int)
                                    == map![root.id => reset_value(h)].union_prefer_right(rest));
                                assert(cols@.computed =~= before.union_prefer_right(
                                    propagated_root(world@, vis, ks, i as int),
                                ));
                            }
                        }
                    },
                    None => {},
                }
            }
        }
        proof {
            if is_root {
                assert(is_root_slot(world@, vis, ks, i as int));
                assert(cols@.computed =~= c0.union_prefer_right(propagated_upto(world@, vis, ks, (i + 1) as nat)));
            } else {
                assert(!is_root_slot(world@, vis, ks, i as int));
                assert(cols@.computed =~= c0.union_prefer_right(propagated_upto(world@, vis, ks, (i + 1) as nat)));
            }
        }
    }
}

/// A computed visibility once some view has seen its entity.
pub closed spec fn seen_value(c: ComputedVisibility) -> ComputedVisibility {
    ComputedVisibility { flags: c.flags | VISIBLE_IN_VIEW }
}

/// What a seen value records; seeing twice is seeing once.
pub proof fn lemma_seen_value(c: ComputedVisibility)
    ensures
        seen_value(c)@.in_view,
        seen_value(c)@.in_hierarchy == c@.in_hierarchy,
        seen_value(seen_value(c)) == seen_value(c),
{
    let f = c.flags;
    assert((f | 1) & 1 == 1 && ((f | 1) & 2 == 2) == (f & 2 == 2) && ((f | 1) | 1) == (f | 1)) by (bit_vector);
}

/// Slot `i` holds an alive entity whose computed visibility is visible in the hierarchy.
pub open spec fn is_seen_slot<V>(w: WorldView<V>, comp: Map<u32, ComputedVisibility>, i: int) -> bool {
    &&& 0 <= i < w.metas.len()
    &&& w.metas[i].state == SlotState::Alive
    &&& comp.contains_key(i as u32)
    &&& comp[i as u32]@.in_hierarchy
}

/// The entities of the first `n` slots that a view sees, in slot order.
pub open spec fn seen_upto<V>(w: WorldView<V>, comp: Map<u32, ComputedVisibility>, n: nat) -> Seq<Entity>
    decreases n,
{
    if n == 0 {
        Seq::empty()
    } else {
        let prev = seen_upto(w, comp, (n - 1) as nat);
        if is_seen_slot(w, comp, n - 1) {
            prev.push(slot_entity(w, n - 1))
        } else {
            prev
        }
    }
}

/// The entities every view sees: those visible in the hierarchy, in slot order.
pub open spec fn seen<V>(w: WorldView<V>, comp: Map<u32, ComputedVisibility>) -> Seq<Entity> {
    seen_upto(w, comp, w.metas.len())
}

/// The computed visibilities once the entities of the first `n` slots that are visible in
/// the hierarchy have been seen.
pub open spec fn marked_upto<V>(w: WorldView<V>, comp: Map<u32, ComputedVisibility>, n: nat) -> Map<
    u32,
    ComputedVisibility,
> {
    comp.union_prefer_right(
        Map::new(|k: u32| k < n && is_seen_slot(w, comp, k as int), |k: u32| seen_value(comp[k])),
    )
}

/// The computed visibilities once every entity visible in the hierarchy has been seen.
pub open spec fn marked<V>(w: WorldView<V>, comp: Map<u32, ComputedVisibility>) -> Map<u32, ComputedVisibility> {
    marked_upto(w, comp, w.metas.len())
}

/// Slot `i` holds an alive view.
pub open spec fn is_view_slot<V>(w: WorldView<V>, views: Map<u32, VisibleEntities>, i: int) -> bool {
    &&& 0 <= i < w.metas.len()
    &&& w.metas[i].state == SlotState::Alive
    &&& views.contains_key(i as u32)
}

/// Some slot holds an alive view.
pub open spec fn has_view<V>(w: WorldView<V>, views: Map<u32, VisibleEntities>) -> bool {
    exists|i: int| is_view_slot(w, views, i)
}

/// Marks as seen every entity visible in the hierarchy, and appends them to `out`.
fn mark_seen<V>(world: &World<V>, computed: &mut HashMap<u32, ComputedVisibility>, out: &mut Vec<Entity>)
    requires
        world.wf(),
    ensures
        final(out)@ == old(out)@ + seen(world@, old(computed)@),
        final(computed)@ == marked(world@, old(computed)@),
{
    proof {
        world.lemma_wf_view();
    }
    let ghost c0 = computed@;
    let ghost o0 = out@;
    let n = world.entities().meta_len();
    proof {
        assert(marked_upto(world@, c0, 0) =~= c0);
        assert(o0 + seen_upto(world@, c0, 0) =~= o0);
    }
    for i in 0..n
        invariant
            world.wf(),
            n == world@.metas.len(),
            n <= u32::MAX,
            out@ == o0 + seen_upto(world@, c0, i as nat),
            computed@ == marked_upto(world@, c0, i as nat),
    {
        let meta = world.entities().slot_meta(i as u32);
        let ghost before = computed@;
        let mut seen_here = false;
        if meta.state == SlotState::Alive {
            match hash_map_get_mut(computed, i as u32) {
                Some(cv) => {
                    proof {
                        assert(before[i as u32] == c0[i as u32]);
                    }
                    if cv.is_visible_in_hierarchy() {
                        cv.set_visible_in_view();
                        seen_here = true;
                    }
                },
                None => {},
            }
        }
        if seen_here {
            let e = Entity { id: i as u32, generation: meta.generation };
            out.push(e);
        }
        proof {
            let k = i as u32;
            assert(seen_here == is_seen_slot(world@, c0, i as int));
            if seen_here {
                lemma_seen_value(c0[k]);
            }
            assert(computed@ =~= marked_upto(world@, c0, (i + 1) as nat));
            assert(out@ =~= o0 + seen_upto(world@, c0, (i + 1) as nat));
        }
    }
}

/// Seeing again what has been seen changes nothing, and sees the same entities.
pub proof fn lemma_marked_again<V>(w: WorldView<V>, c: Map<u32, ComputedVisibility>)
    ensures
        marked(w, marked(w, c)) == marked(w, c),
        seen(w, marked(w, c)) == seen(w, c),
{
    let m = marked(w, c);
    assert forall|k: u32| #[trigger] m.contains_key(k) implies m[k]@.in_hierarchy == c[k]@.in_hierarchy
        && (is_seen_slot(w, c, k as int) ==> seen_value(m[k]) == m[k]) by {
        if (k as int) < w.metas.len() && is_seen_slot(w, c, k as int) {
            lemma_seen_value(c[k]);
        }
    }
    assert forall|i: int| #[trigger] is_seen_slot(w, m, i) == is_seen_slot(w, c, i) by {
        if 0 <= i < w.metas.len() && m.contains_key(i as u32) {
            assert(m[i as u32]@.in_hierarchy == c[i as u32]@.in_hierarchy);
        }
    }
    assert(marked(w, m) =~= m);
    lemma_seen_same(w, m, c, w.metas.len());
}

proof fn lemma_seen_same<V>(w: WorldView<V>, a: Map<u32, ComputedVisibility>, b: Map<u32, ComputedVisibility>, n: nat)
    requires
        forall|i: int| #[trigger] is_seen_slot(w, a, i) == is_seen_slot(w, b, i),
    ensures
        seen_upto(w, a, n) == seen_upto(w, b, n),
    decreases n,
{
    if n > 0 {
        lemma_seen_same(w, a, b, (n - 1) as nat);
        assert(is_seen_slot(w, a, n - 1) == is_seen_slot(w, b, n - 1));
    }
}

/// Gives each view the entities visible in the hierarchy, in slot order, and marks those
/// entities as seen. `views` holds the `VisibleEntities` of the cameras that have a
/// frustum.
pub fn check_visibility<V>(
    world: &World<V>,
    cols: &mut VisibilityColumns,
    views: &mut HashMap<u32, VisibleEntities>,
)
    requires
        world.wf(),
    ensures
        final(cols)@.visibility == old(cols)@.visibility,
        final(cols)@.computed == (if has_view(world@, old(views)@) {
            marked(world@, old(cols)@.computed)
        } else {
            old(cols)@.computed
        }),
        final(views)@.dom() == old(views)@.dom(),
        forall|k: u32| #[trigger] old(views)@.contains_key(k) ==> if is_view_slot(world@, old(views)@, k as int) {
            final(views)@[k].entities@ == seen(world@, old(cols)@.computed)
        } else {
            final(views)@[k] == old(views)@[k]
        },
{
    proof {
        world.lemma_wf_view();
    }
    let ghost c0 = cols@.computed;
    let ghost v0 = views@;
    let n = world.entities().meta_len();
    let mut any = false;
    for j in 0..n
        invariant
            world.wf(),
            n == world@.metas.len(),
            n <= u32::MAX,
            cols@.visibility == old(cols)@.visibility,
            c0 == old(cols)@.computed,
            v0 == old(views)@,
            any == exists|i: int| i < j && #[trigger] is_view_slot(world@, v0, i),
            cols@.computed == (if any { marked(world@, c0) } else { c0 }),
            views@.dom() == v0.dom(),
            forall|k: u32| #[trigger] v0.contains_key(k) ==> if k < j && is_view_slot(world@, v0, k as int) {
                views@[k].entities@ == seen(world@, c0)
            } else {
                views@[k] == v0[k]
            },
    {
        let ghost before = views@;
        let meta = world.entities().slot_meta(j as u32);
        if meta.state == SlotState::Alive {
            match hash_map_get_mut(views, j as u32) {
                Some(visible_entities) => {
                    visible_entities.entities.clear();
                    proof {
                        lemma_marked_again(world@, c0);
                    }
                    mark_seen(world, &mut cols.computed, &mut visible_entities.entities);
                    proof {
                        assert(is_view_slot(world@, v0, j as int));
                    }
                    any = true;
                },
                None => {},
            }
        }
        proof {
            assert forall|k: u32| #[trigger] v0.contains_key(k) implies if k < j + 1 && is_view_slot(world@, v0, k as int) {
                views@[k].entities@ == seen(world@, c0)
            } else {
                views@[k] == v0[k]
            } by {
                if k != j as u32 {
                    assert(views@[k] == before[k]);
                }
            }
            if any {
                assert(exists|i: int| i < j + 1 && #[trigger] is_view_slot(world@, v0, i));
            } else {
                assert forall|i: int| i < j + 1 implies !#[trigger] is_view_slot(world@, v0, i) by {
                    if i == j {
                    }
                }
            }
        }
    }
    proof {
        if has_view(world@, v0) {
            let i = choose|i: int| is_view_slot(world@, v0, i);
            assert(i < n);
        }
    }
}

/// Whether slot `id` is visible in the hierarchy by its chain of parents, looking at most
/// `k` links up: neither the entity nor any entity above it is hidden (`inherits`).
pub open spec fn chain_visible<V>(w: WorldView<V>, vis: Map<u32, Visibility>, id: u32, k: nat) -> bool
    decreases k,
{
    if k == 0 {
        false
    } else {
        match w.data[id as int].parent {
            None => vis[id] != Visibility::Hidden,
            Some(p) => inherits(vis[id], chain_visible(w, vis, p.id, (k - 1) as nat)),
        }
    }
}

/// The chain of parents above slot `id` ends within `k` links.
pub open spec fn chain_ends<V>(w: WorldView<V>, id: u32, k: nat) -> bool
    decreases k,
{
    k > 0 && match w.data[id as int].parent {
        None => true,
        Some(p) => chain_ends(w, p.id, (k - 1) as nat),
    }
}

/// Once the chain has ended, looking further up changes nothing.
pub proof fn lemma_chain_stable<V>(w: WorldView<V>, vis: Map<u32, Visibility>, id: u32, k: nat, k2: nat)
    requires
        chain_ends(w, id, k),
        k <= k2,
    ensures
        chain_ends(w, id, k2),
        chain_visible(w, vis, id, k2) == chain_visible(w, vis, id, k),
    decreases k,
{
    match w.data[id as int].parent {
        None => {},
        Some(p) => {
            lemma_chain_stable(w, vis, p.id, (k - 1) as nat, (k2 - 1) as nat);
        },
    }
}

proof fn lemma_node_chain<V>(
    w: WorldView<V>,
    vis: Map<u32, Visibility>,
    ks: Set<u32>,
    e: Entity,
    parent: Entity,
    pv: bool,
    fuel: nat,
    m: nat,
)
    requires
        node_ok(w, vis, ks, e, parent, fuel),
        chain_ends(w, parent.id, m),
        pv == chain_visible(w, vis, parent.id, m),
    ensures
        forall|x: u32| #[trigger] propagated_node(w, vis, ks, e, pv, fuel).contains_key(x) ==> {
            &&& propagated_node(w, vis, ks, e, pv, fuel)[x] == reset_value(chain_visible(w, vis, x, m + fuel))
            &&& chain_ends(w, x, m + fuel)
        },
    decreases fuel, 0nat, 0nat,
{
    if fuel > 0 && is_child_node(w, vis, ks, e) {
        let h = inherits(vis[e.id], pv);
        let f = (fuel - 1) as nat;
        assert(w.data[e.id as int].parent == Some(parent));
        assert(chain_visible(w, vis, e.id, m + 1) == h);
        assert(chain_ends(w, e.id, m + 1));
        lemma_chain_stable(w, vis, e.id, m + 1, m + fuel);
        lemma_list_chain(w, vis, ks, w.children_or_empty(e), e, h, f, m + 1);
        assert((m + 1 + f) as nat == m + fuel);
        let pm = propagated_node(w, vis, ks, e, pv, fuel);
        let l = propagated_list(w, vis, ks, w.children_or_empty(e), h, f);
        assert(pm == map![e.id => reset_value(h)].union_prefer_right(l));
        assert forall|x: u32| #[trigger] pm.contains_key(x) implies {
            &&& pm[x] == reset_value(chain_visible(w, vis, x, m + fuel))
            &&& chain_ends(w, x, m + fuel)
        } by {
            if l.contains_key(x) {
                assert(pm[x] == l[x]);
            } else {
                assert(x == e.id);
                assert(pm[x] == reset_value(h));
            }
        }
    }
}

proof fn lemma_list_chain<V>(
    w: WorldView<V>,
    vis: Map<u32, Visibility>,
    ks: Set<u32>,
    cs: Seq<Entity>,
    parent: Entity,
    pv: bool,
    fuel: nat,
    m: nat,
)
    requires
        list_ok(w, vis, ks, cs, parent, fuel),
        chain_ends(w, parent.id, m),
        pv == chain_visible(w, vis, parent.id, m),
    ensures
        forall|x: u32| #[trigger] propagated_list(w, vis, ks, cs, pv, fuel).contains_key(x) ==> {
            &&& propagated_list(w, vis, ks, cs, pv, fuel)[x] == reset_value(chain_visible(w, vis, x, m + fuel))
            &&& chain_ends(w, x, m + fuel)
        },
    decreases fuel, 1nat, cs.len(),
{
    if cs.len() > 0 {
        assert(list_ok(w, vis, ks, cs.drop_last(), parent, fuel)) by {
            assert forall|k: int| 0 <= k < cs.drop_last().len() implies node_ok(
                w,
                vis,
                ks,
                #[trigger] cs.drop_last()[k],
                parent,
                fuel,
            ) by {
                assert(cs.drop_last()[k] == cs[k]);
            }
        }
        assert(node_ok(w, vis, ks, cs[cs.len() - 1], parent, fuel));
        lemma_list_chain(w, vis, ks, cs.drop_last(), parent, pv, fuel, m);
        lemma_node_chain(w, vis, ks, cs.last(), parent, pv, fuel, m);
        let a = propagated_list(w, vis, ks, cs.drop_last(), pv, fuel);
        let b = propagated_node(w, vis, ks, cs.last(), pv, fuel);
        let pm = propagated_list(w, vis, ks, cs, pv, fuel);
        assert(pm == a.union_prefer_right(b));
        assert forall|x: u32| #[trigger] pm.contains_key(x) implies {
            &&& pm[x] == reset_value(chain_visible(w, vis, x, m + fuel))
            &&& chain_ends(w, x, m + fuel)
        } by {
            if b.contains_key(x) {
                assert(pm[x] == b[x]);
            } else {
                assert(a.contains_key(x));
                assert(pm[x] == a[x]);
            }
        }
    }
}

proof fn lemma_upto_chain<V>(w: WorldView<V>, vis: Map<u32, Visibility>, ks: Set<u32>, n: nat)
    requires
        n <= w.metas.len(),
        w.metas.len() <= u32::MAX,
        forall|i: int|
            0 <= i < w.metas.len() && is_root_slot(w, vis, ks, i) ==> list_ok(
                w,
                vis,
                ks,
                w.children_or_empty(#[trigger] slot_entity(w, i)),
                slot_entity(w, i),
                w.tree_fuel(),
            ),
    ensures
        forall|x: u32| #[trigger] propagated_upto(w, vis, ks, n).contains_key(x) ==> {
            &&& propagated_upto(w, vis, ks, n)[x] == reset_value(chain_visible(w, vis, x, w.tree_fuel() + 1))
            &&& chain_ends(w, x, w.tree_fuel() + 1)
        },
    decreases n,
{
    if n > 0 {
        lemma_upto_chain(w, vis, ks, (n - 1) as nat);
        let i = n - 1;
        if is_root_slot(w, vis, ks, i) {
            let r = slot_entity(w, i);
            let h = vis[r.id] != Visibility::Hidden;
            assert(r.id as int == i);
            assert(chain_visible(w, vis, r.id, 1) == h);
            assert(chain_ends(w, r.id, 1));
            lemma_chain_stable(w, vis, r.id, 1, w.tree_fuel() + 1);
            lemma_list_chain(w, vis, ks, w.children_or_empty(r), r, h, w.tree_fuel(), 1);
            assert((1 + w.tree_fuel()) as nat == w.tree_fuel() + 1);
            let prev = propagated_upto(w, vis, ks, (n - 1) as nat);
            let l = propagated_list(w, vis, ks, w.children_or_empty(r), h, w.tree_fuel());
            let root = map![r.id => reset_value(h)].union_prefer_right(l);
            assert(propagated_root(w, vis, ks, i) == root);
            let pm = propagated_upto(w, vis, ks, n);
            assert(pm == prev.union_prefer_right(root));
            assert forall|x: u32| #[trigger] pm.contains_key(x) implies {
                &&& pm[x] == reset_value(chain_visible(w, vis, x, w.tree_fuel() + 1))
                &&& chain_ends(w, x, w.tree_fuel() + 1)
            } by {
                if l.contains_key(x) {
                    assert(pm[x] == l[x]);
                } else if x == r.id {
                    assert(pm[x] == reset_value(h));
                } else {
                    assert(pm[x] == prev[x]);
                }
            }
        } else {
            assert(propagated_upto(w, vis, ks, n) == propagated_upto(w, vis, ks, (n - 1) as nat));
        }
    }
}

/// Visibility inheritance: after propagation, every entity it reached is seen by no view
/// and is visible in the hierarchy exactly when neither it nor any of its ancestors is
/// hidden, and its chain of parents ends at an entity without a parent.
/// The computed visibility of every other entity is unchanged.
pub proof fn lemma_propagation_follows_parents<V>(w: WorldView<V>, c: VisibilityColumnsView)
    requires
        w.metas.len() <= u32::MAX,
        can_propagate(w, c),
    ensures
        forall|x: u32| #[trigger] propagated_upto(w, c.visibility, c.computed.dom(), w.metas.len()).contains_key(x) ==> {
            &&& propagated(w, c).computed[x]@.in_hierarchy == chain_visible(w, c.visibility, x, w.tree_fuel() + 1)
            &&& !propagated(w, c).computed[x]@.in_view
            &&& chain_ends(w, x, w.tree_fuel() + 1)
        },
        forall|x: u32| #[trigger] c.computed.contains_key(x) && !propagated_upto(w, c.visibility, c.computed.dom(), w.metas.len()).contains_key(x)
            ==> propagated(w, c).computed[x] == c.computed[x],
        propagated(w, c).computed.dom() == c.computed.dom(),
{
    let vis = c.visibility;
    let ks = c.computed.dom();
    let p = propagated_upto(w, vis, ks, w.metas.len());
    lemma_upto_chain(w, vis, ks, w.metas.len());
    assert forall|x: u32| #[trigger] p.contains_key(x) implies {
        &&& propagated(w, c).computed[x]@.in_hierarchy == chain_visible(w, vis, x, w.tree_fuel() + 1)
        &&& !propagated(w, c).computed[x]@.in_view
    } by {
        lemma_reset_value(chain_visible(w, vis, x, w.tree_fuel() + 1));
    }
    lemma_upto_keys(w, vis, ks, w.metas.len());
    assert(propagated(w, c).computed.dom() =~= c.computed.dom());
}

proof fn lemma_upto_keys<V>(w: WorldView<V>, vis: Map<u32, Visibility>, ks: Set<u32>, n: nat)
    requires
        n <= w.metas.len(),
        w.metas.len() <= u32::MAX,
    ensures
        propagated_upto(w, vis, ks, n).dom().subset_of(ks),
    decreases n,
{
    if n > 0 {
        lemma_upto_keys(w, vis, ks, (n - 1) as nat);
        let i = n - 1;
        if is_root_slot(w, vis, ks, i) {
            let r = slot_entity(w, i);
            lemma_propagated_list_keys(w, vis, ks, w.children_or_empty(r), vis[r.id] != Visibility::Hidden, w.tree_fuel());
            assert(r.id as int == i);
        }
    }
}

/// Every entity reached below `parent` has as its parent `parent` or another entity
/// reached below `parent`.
proof fn lemma_node_parents<V>(
    w: WorldView<V>,
    vis: Map<u32, Visibility>,
    ks: Set<u32>,
    e: Entity,
    parent: Entity,
    pv: bool,
    fuel: nat,
)
    requires
        node_ok(w, vis, ks, e, parent, fuel),
    ensures
        forall|x: u32| #[trigger] propagated_node(w, vis, ks, e, pv, fuel).contains_key(x) ==> match w.data[x as int].parent {
            Some(q) => q.id == parent.id || propagated_node(w, vis, ks, e, pv, fuel).contains_key(q.id),
            None => false,
        },
    decreases fuel, 0nat, 0nat,
{
    if fuel > 0 && is_child_node(w, vis, ks, e) {
        let h = inherits(vis[e.id], pv);
        let f = (fuel - 1) as nat;
        lemma_list_parents(w, vis, ks, w.children_or_empty(e), e, h, f);
        let pm = propagated_node(w, vis, ks, e, pv, fuel);
        let l = propagated_list(w, vis, ks, w.children_or_empty(e), h, f);
        assert(pm == map![e.id => reset_value(h)].union_prefer_right(l));
        assert forall|x: u32| #[trigger] pm.contains_key(x) implies match w.data[x as int].parent {
            Some(q) => q.id == parent.id || pm.contains_key(q.id),
            None => false,
        } by {
            if l.contains_key(x) {
                match w.data[x as int].parent {
                    Some(q) => {
                        if q.id == e.id {
                            assert(pm.contains_key(e.id));
                        } else {
                            assert(l.contains_key(q.id));
                        }
                    },
                    None => {},
                }
            } else {
                assert(x == e.id);
            }
        }
    }
}

proof fn lemma_list_parents<V>(
    w: WorldView<V>,
    vis: Map<u32, Visibility>,
    ks: Set<u32>,
    cs: Seq<Entity>,
    parent: Entity,
    pv: bool,
    fuel: nat,
)
    requires
        list_ok(w, vis, ks, cs, parent, fuel),
    ensures
        forall|x: u32| #[trigger] propagated_list(w, vis, ks, cs, pv, fuel).contains_key(x) ==> match w.data[x as int].parent {
            Some(q) => q.id == parent.id || propagated_list(w, vis, ks, cs, pv, fuel).contains_key(q.id),
            None => false,
        },
    decreases fuel, 1nat, cs.len(),
{
    if cs.len() > 0 {
        assert(list_ok(w, vis, ks, cs.drop_last(), parent, fuel)) by {
            assert forall|k: int| 0 <= k < cs.drop_last().len() implies node_ok(
                w,
                vis,
                ks,
                #[trigger] cs.drop_last()[k],
                parent,
                fuel,
            ) by {
                assert(cs.drop_last()[k] == cs[k]);
            }
        }
        assert(node_ok(w, vis, ks, cs[cs.len() - 1], parent, fuel));
        lemma_list_parents(w, vis, ks, cs.drop_last(), parent, pv, fuel);
        lemma_node_parents(w, vis, ks, cs.last(), parent, pv, fuel);
        let a = propagated_list(w, vis, ks, cs.drop_last(), pv, fuel);
        let b = propagated_node(w, vis, ks, cs.last(), pv, fuel);
        let pm = propagated_list(w, vis, ks, cs, pv, fuel);
        assert(pm == a.union_prefer_right(b));
        assert forall|x: u32| #[trigger] pm.contains_key(x) implies match w.data[x as int].parent {
            Some(q) => q.id == parent.id || pm.contains_key(q.id),
            None => false,
        } by {
            if b.contains_key(x) {
                match w.data[x as int].parent {
                    Some(q) => {
                        if q.id != parent.id {
                            assert(b.contains_key(q.id));
                        }
                    },
                    None => {},
                }
            } else {
                assert(a.contains_key(x));
                match w.data[x as int].parent {
                    Some(q) => {
                        if q.id != parent.id {
                            assert(a.contains_key(q.id));
                        }
                    },
                    None => {},
                }
            }
        }
    }
}

proof fn lemma_upto_parents<V>(w: WorldView<V>, vis: Map<u32, Visibility>, ks: Set<u32>, n: nat)
    requires
        n <= w.metas.len(),
        w.metas.len() <= u32::MAX,
        forall|i: int|
            0 <= i < w.metas.len() && is_root_slot(w, vis, ks, i) ==> list_ok(
                w,
                vis,
                ks,
                w.children_or_empty(#[trigger] slot_entity(w, i)),
                slot_entity(w, i),
                w.tree_fuel(),
            ),
    ensures
        forall|x: u32| #[trigger] propagated_upto(w, vis, ks, n).contains_key(x) ==> match w.data[x as int].parent {
            Some(q) => propagated_upto(w, vis, ks, n).contains_key(q.id),
            None => true,
        },
    decreases n,
{
    if n > 0 {
        lemma_upto_parents(w, vis, ks, (n - 1) as nat);
        let i = n - 1;
        let prev = propagated_upto(w, vis, ks, (n - 1) as nat);
        if is_root_slot(w, vis, ks, i) {
            let r = slot_entity(w, i);
            let h = vis[r.id] != Visibility::Hidden;
            assert(r.id as int == i);
            lemma_list_parents(w, vis, ks, w.children_or_empty(r), r, h, w.tree_fuel());
            let l = propagated_list(w, vis, ks, w.children_or_empty(r), h, w.tree_fuel());
            let root = map![r.id => reset_value(h)].union_prefer_right(l);
            assert(propagated_root(w, vis, ks, i) == root);
            let pm = propagated_upto(w, vis, ks, n);
            assert(pm == prev.union_prefer_right(root));
            assert forall|x: u32| #[trigger] pm.contains_key(x) implies match w.data[x as int].parent {
                Some(q) => pm.contains_key(q.id),
                None => true,
            } by {
                if l.contains_key(x) {
                    match w.data[x as int].parent {
                        Some(q) => {
                            if q.id == r.id {
                                assert(root.contains_key(r.id));
                            } else {
                                assert(l.contains_key(q.id));
                            }
                        },
                        None => {},
                    }
                } else if x != r.id {
                    assert(prev.contains_key(x));
                    match w.data[x as int].parent {
                        Some(q) => {
                            assert(prev.contains_key(q.id));
                        },
                        None => {},
                    }
                }
            }
        } else {
            assert(propagated_upto(w, vis, ks, n) == prev);
        }
    }
}

/// Visibility inheritance, parent by parent: after propagation, the parent of every entity
/// it reached was reached too, and the entity is visible in the hierarchy exactly when it is
/// not hidden and its parent is visible in the hierarchy; an entity it reached without a
/// parent is visible in the hierarchy unless it is hidden.
pub proof fn lemma_propagation_inherits_from_parent<V>(w: WorldView<V>, c: VisibilityColumnsView)
    requires
        w.metas.len() <= u32::MAX,
        can_propagate(w, c),
    ensures
        forall|x: u32| #[trigger] propagated_upto(w, c.visibility, c.computed.dom(), w.metas.len()).contains_key(x) ==> match w.data[x as int].parent {
            Some(q) => {
                &&& propagated_upto(w, c.visibility, c.computed.dom(), w.metas.len()).contains_key(q.id)
                &&& propagated(w, c).computed[x]@.in_hierarchy == inherits(
                    c.visibility[x],
                    propagated(w, c).computed[q.id]@.in_hierarchy,
                )
            },
            None => propagated(w, c).computed[x]@.in_hierarchy == (c.visibility[x] != Visibility::Hidden),
        },
{
    let vis = c.visibility;
    let ks = c.computed.dom();
    let k = w.tree_fuel() + 1;
    let pm = propagated_upto(w, vis, ks, w.metas.len());
    lemma_propagation_follows_parents(w, c);
    lemma_upto_parents(w, vis, ks, w.metas.len());
    assert forall|x: u32| #[trigger] pm.contains_key(x) implies match w.data[x as int].parent {
        Some(q) => {
            &&& pm.contains_key(q.id)
            &&& propagated(w, c).computed[x]@.in_hierarchy == inherits(vis[x], propagated(w, c).computed[q.id]@.in_hierarchy)
        },
        None => propagated(w, c).computed[x]@.in_hierarchy == (vis[x] != Visibility::Hidden),
    } by {
        assert(chain_ends(w, x, k));
        match w.data[x as int].parent {
            Some(q) => {
                assert(pm.contains_key(q.id));
                assert(chain_visible(w, vis, x, k) == inherits(vis[x], chain_visible(w, vis, q.id, (k - 1) as nat)));
                assert(chain_ends(w, q.id, (k - 1) as nat));
                lemma_chain_stable(w, vis, q.id, (k - 1) as nat, k);
            },
            None => {},
        }
    }
}

/// A chain of distinct alive entities is no longer than there are slots.
proof fn lemma_path_bound<V>(w: WorldView<V>, path: Seq<Entity>)
    requires
        path.no_duplicates(),
        forall|k: int| 0 <= k < path.len() ==> w.alive(#[trigger] path[k]),
    ensures
        path.len() <= w.metas.len(),
{
    let ids = path.map_values(|e: Entity| e.id as int);
    assert(ids.no_duplicates()) by {
        assert forall|a: int, b: int| 0 <= a < ids.len() && 0 <= b < ids.len() && a != b implies ids[a] != ids[b] by {
            if ids[a] == ids[b] {
                assert(w.alive(path[a]) && w.alive(path[b]));
                assert(path[a] == path[b]);
            }
        }
    }
    ids.unique_seq_to_set();
    lemma_int_range(0, w.metas.len() as int);
    assert forall|i: int| ids.to_set().contains(i) implies set_int_range(0, w.metas.len() as int).contains(i) by {
        let k = choose|k: int| 0 <= k < ids.len() && ids[k] == i;
        assert(w.alive(path[k]));
    }
    lemma_len_subset(ids.to_set(), set_int_range(0, w.metas.len() as int));
}

proof fn lemma_list_ok_from_links<V>(
    w: WorldView<V>,
    vis: Map<u32, Visibility>,
    ks: Set<u32>,
    y: Entity,
    path: Seq<Entity>,
    fuel: nat,
)
    requires
        w.links_agree(),
        path.len() > 0,
        path.last() == y,
        path.no_duplicates(),
        forall|k: int| 0 <= k < path.len() ==> w.alive(#[trigger] path[k]),
        w.parent_of(path[0]).is_none(),
        forall|k: int| 0 < k < path.len() ==> w.parent_of(#[trigger] path[k]) == Some(path[k - 1]),
        fuel + path.len() == w.tree_fuel(),
    ensures
        list_ok(w, vis, ks, w.children_or_empty(y), y, fuel),
    decreases fuel,
{
    let cs = w.children_or_empty(y);
    lemma_path_bound(w, path);
    assert forall|k: int| 0 <= k < cs.len() implies node_ok(w, vis, ks, #[trigger] cs[k], y, fuel) by {
        let c = cs[k];
        assert(w.alive(path[path.len() - 1]));
        assert(cs.contains(c));
        assert(w.alive(c) && w.parent_of(c) == Some(y));
        if is_child_node(w, vis, ks, c) {
            let p2 = path.push(c);
            assert(!path.contains(c)) by {
                if path.contains(c) {
                    let i = choose|i: int| 0 <= i < path.len() && path[i] == c;
                    if i == 0 {
                        assert(w.parent_of(path[0]).is_none());
                    } else {
                        assert(w.parent_of(path[i]) == Some(path[i - 1]));
                        assert(path[i - 1] == path[path.len() - 1]);
                    }
                }
            }
            assert(p2.no_duplicates()) by {
                assert forall|a: int, b: int| 0 <= a < p2.len() && 0 <= b < p2.len() && a != b implies p2[a] != p2[b] by {
                    if a < path.len() && b < path.len() {
                        assert(p2[a] == path[a] && p2[b] == path[b]);
                    } else if a == path.len() {
                        assert(p2[a] == c);
                        assert(p2[b] == path[b]);
                        assert(path.contains(path[b]));
                    } else {
                        assert(p2[b] == c);
                        assert(p2[a] == path[a]);
                        assert(path.contains(path[a]));
                    }
                }
            }
            assert forall|t: int| 0 <= t < p2.len() implies w.alive(#[trigger] p2[t]) by {
                if t < path.len() {
                    assert(p2[t] == path[t]);
                }
            }
            assert forall|t: int| 0 < t < p2.len() implies w.parent_of(#[trigger] p2[t]) == Some(p2[t - 1]) by {
                if t < path.len() {
                    assert(p2[t] == path[t] && p2[t - 1] == path[t - 1]);
                } else {
                    assert(p2[t - 1] == path[path.len() - 1]);
                }
            }
            assert(p2[0] == path[0]);
            lemma_path_bound(w, p2);
            lemma_list_ok_from_links(w, vis, ks, c, p2, (fuel - 1) as nat);
        }
    }
}

/// A hierarchy whose parent and children links agree never trips propagation: every
/// entity reached names the entity it was reached from as its parent, and no chain from a
/// root is longer than there are slots.
pub proof fn lemma_links_agree_can_propagate<V>(w: WorldView<V>, c: VisibilityColumnsView)
    requires
        w.metas.len() <= u32::MAX,
        w.data.len() == w.metas.len(),
        w.links_agree(),
    ensures
        can_propagate(w, c),
{
    assert forall|i: int| 0 <= i < w.metas.len() && is_root_slot(w, c.visibility, c.computed.dom(), i) implies list_ok(
        w,
        c.visibility,
        c.computed.dom(),
        w.children_or_empty(#[trigger] slot_entity(w, i)),
        slot_entity(w, i),
        w.tree_fuel(),
    ) by {
        let r = slot_entity(w, i);
        assert(r.id as int == i);
        let path = seq![r];
        assert(w.alive(r));
        assert(path.no_duplicates());
        assert(path.last() == r);
        lemma_list_ok_from_links(w, c.visibility, c.computed.dom(), r, path, (w.tree_fuel() - 1) as nat);
        lemma_list_ok_fuel(w, c.visibility, c.computed.dom(), w.children_or_empty(r), r, (w.tree_fuel() - 1) as nat, w.tree_fuel());
    }
}

/// More depth to look at does not make propagation panic.
proof fn lemma_list_ok_fuel<V>(
    w: WorldView<V>,
    vis: Map<u32, Visibility>,
    ks: Set<u32>,
    cs: Seq<Entity>,
    y: Entity,
    f1: nat,
    f2: nat,
)
    requires
        list_ok(w, vis, ks, cs, y, f1),
        f1 <= f2,
    ensures
        list_ok(w, vis, ks, cs, y, f2),
    decreases f1,
{
    assert forall|k: int| 0 <= k < cs.len() implies node_ok(w, vis, ks, #[trigger] cs[k], y, f2) by {
        assert(node_ok(w, vis, ks, cs[k], y, f1));
        if is_child_node(w, vis, ks, cs[k]) {
            lemma_list_ok_fuel(w, vis, ks, w.children_or_empty(cs[k]), cs[k], (f1 - 1) as nat, (f2 - 1) as nat);
        }
    }
}

/// Slot `a` lies above slot `id` in the hierarchy, at most `k` parent links up.
pub open spec fn ancestor_within<V>(w: WorldView<V>, id: u32, a: u32, k: nat) -> bool
    decreases k,
{
    k > 0 && match w.data[id as int].parent {
        None => false,
        Some(p) => p.id == a || ancestor_within(w, p.id, a, (k - 1) as nat),
    }
}

/// Visibility by the chain of parents, said directly: an entity whose chain of parents
/// ends is visible in the hierarchy exactly when neither it nor any of its ancestors is
/// hidden.
pub proof fn lemma_chain_visible_iff_no_hidden_ancestor<V>(w: WorldView<V>, vis: Map<u32, Visibility>, id: u32, k: nat)
    requires
        chain_ends(w, id, k),
    ensures
        chain_visible(w, vis, id, k) <==> vis[id] != Visibility::Hidden && forall|a: u32|
            #[trigger] ancestor_within(w, id, a, k) ==> vis[a] != Visibility::Hidden,
    decreases k,
{
    match w.data[id as int].parent {
        None => {},
        Some(p) => {
            let k1 = (k - 1) as nat;
            lemma_chain_visible_iff_no_hidden_ancestor(w, vis, p.id, k1);
            assert(chain_visible(w, vis, id, k) == (chain_visible(w, vis, p.id, k1) && vis[id] != Visibility::Hidden));
            assert(ancestor_within(w, id, p.id, k));
            assert forall|a: u32| #[trigger] ancestor_within(w, id, a, k) <==> (a == p.id || ancestor_within(w, p.id, a, k1)) by {
            }
            if chain_visible(w, vis, id, k) {
                assert forall|a: u32| #[trigger] ancestor_within(w, id, a, k) implies vis[a] != Visibility::Hidden by {
                    if a != p.id {
                        assert(ancestor_within(w, p.id, a, k1));
                    }
                }
            } else if vis[id] != Visibility::Hidden {
                if vis[p.id] == Visibility::Hidden {
                    assert(ancestor_within(w, id, p.id, k));
                } else {
                    let a = choose|a: u32| #[trigger] ancestor_within(w, p.id, a, k1) && vis[a] == Visibility::Hidden;
                    assert(ancestor_within(w, id, a, k));
                }
            }
        },
    }
}

/// After propagation, every entity it reaches is visible in the hierarchy exactly when
/// neither it nor any of its ancestors is hidden, and is not yet visible in any view.
pub proof fn lemma_hidden_ancestor_hides<V>(w: WorldView<V>, c: VisibilityColumnsView, x: u32)
    requires
        w.metas.len() <= u32::MAX,
        can_propagate(w, c),
        propagated_upto(w, c.visibility, c.computed.dom(), w.metas.len()).contains_key(x),
    ensures
        propagated(w, c).computed[x]@.in_hierarchy <==> c.visibility[x] != Visibility::Hidden && forall|a: u32|
            #[trigger] ancestor_within(w, x, a, w.tree_fuel() + 1) ==> c.visibility[a] != Visibility::Hidden,
        !propagated(w, c).computed[x]@.in_view,
{
    lemma_propagation_follows_parents(w, c);
    lemma_chain_visible_iff_no_hidden_ancestor(w, c.visibility, x, w.tree_fuel() + 1);
}

} // verus!
