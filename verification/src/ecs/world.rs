//! The world: entities, their components and hierarchy links, and resources.
use std::collections::{HashMap, HashSet};
use vstd::prelude::*;
use vstd::std_specs::iter::IteratorSpec;

use crate::ecs::entity::{
    count_alive, flushed_metas, id_range, other_id, next_generation, ComponentId, Entities, Entity, EntityMeta,
    ResourceId, SlotState,
};
use crate::ecs::maps::hash_map_get_mut;

verus! {

broadcast use vstd::std_specs::hash::group_hash_axioms;

/// What a world knows about one entity slot.
#[verifier::ext_equal]
pub struct EntityView<V> {
    pub components: Map<ComponentId, V>,
    pub parent: Option<Entity>,
    pub children: Option<Seq<Entity>>,
}

impl<V> EntityView<V> {
    pub open spec fn empty() -> EntityView<V> {
        EntityView { components: Map::empty(), parent: None, children: None }
    }
}

/// The abstract state of a world.
#[verifier::ext_equal]
pub struct WorldView<V> {
    pub metas: Seq<EntityMeta>,
    pub free: Seq<u32>,
    pub data: Seq<EntityView<V>>,
    pub resources: Map<ResourceId, V>,
    pub removed: Map<ComponentId, Seq<Entity>>,
    /// The tick that changes are stamped with.
    pub change_tick: u32,
    /// The component ids that have been registered, explicitly or by being inserted into
    /// an entity.
    pub registered: Set<ComponentId>,
}

/// Appends `e` to the removal log of every component id in `keys`.
pub open spec fn note_removed(
    removed: Map<ComponentId, Seq<Entity>>,
    keys: Set<ComponentId>,
    e: Entity,
) -> Map<ComponentId, Seq<Entity>> {
    Map::new(
        |k: ComponentId| removed.contains_key(k) || keys.contains(k),
        |k: ComponentId|
            if keys.contains(k) {
                removed_log(removed, k).push(e)
            } else {
                removed[k]
            },
    )
}

/// The removal log of component `k`, empty when nothing was removed yet.
pub open spec fn removed_log(removed: Map<ComponentId, Seq<Entity>>, k: ComponentId) -> Seq<Entity> {
    if removed.contains_key(k) {
        removed[k]
    } else {
        Seq::empty()
    }
}

impl<V> WorldView<V> {
    pub open spec fn alive(self, e: Entity) -> bool {
        &&& e.id < self.metas.len()
        &&& self.metas[e.id as int] == EntityMeta { generation: e.generation, state: SlotState::Alive }
    }

    pub open spec fn entity(self, e: Entity) -> EntityView<V> {
        self.data[e.id as int]
    }

    pub open spec fn parent_of(self, e: Entity) -> Option<Entity> {
        self.data[e.id as int].parent
    }

    pub open spec fn children_of(self, e: Entity) -> Option<Seq<Entity>> {
        self.data[e.id as int].children
    }

    pub open spec fn components_of(self, e: Entity) -> Map<ComponentId, V> {
        self.data[e.id as int].components
    }

    pub open spec fn with_entity(self, e: Entity, ev: EntityView<V>) -> WorldView<V> {
        WorldView {
            metas: self.metas,
            free: self.free,
            data: self.data.update(e.id as int, ev),
            resources: self.resources,
            removed: self.removed,
            change_tick: self.change_tick,
            registered: self.registered,
        }
    }

    pub open spec fn with_parent(self, e: Entity, p: Option<Entity>) -> WorldView<V> {
        let d = self.data[e.id as int];
        self.with_entity(e, EntityView { components: d.components, parent: p, children: d.children })
    }

    pub open spec fn with_children(self, e: Entity, c: Option<Seq<Entity>>) -> WorldView<V> {
        let d = self.data[e.id as int];
        self.with_entity(e, EntityView { components: d.components, parent: d.parent, children: c })
    }

    pub open spec fn with_components(self, e: Entity, m: Map<ComponentId, V>) -> WorldView<V> {
        let d = self.data[e.id as int];
        self.with_entity(e, EntityView { components: m, parent: d.parent, children: d.children })
    }

    /// The world after component `k` of `e` is set to `v`; `k` is registered.
    pub open spec fn with_component(self, e: Entity, k: ComponentId, v: V) -> WorldView<V> {
        let w = self.with_components(e, self.components_of(e).insert(k, v));
        WorldView { registered: self.registered.insert(k), ..w }
    }

    pub open spec fn with_resources(self, r: Map<ResourceId, V>) -> WorldView<V> {
        WorldView {
            metas: self.metas,
            free: self.free,
            data: self.data,
            resources: r,
            removed: self.removed,
            change_tick: self.change_tick,
            registered: self.registered,
        }
    }

    pub open spec fn with_removed(self, r: Map<ComponentId, Seq<Entity>>) -> WorldView<V> {
        WorldView {
            metas: self.metas,
            free: self.free,
            data: self.data,
            resources: self.resources,
            removed: r,
            change_tick: self.change_tick,
            registered: self.registered,
        }
    }

    /// The handle the next spawn hands out.
    pub open spec fn next_entity(self) -> Entity {
        if self.free.len() > 0 {
            let id = self.free.last();
            Entity { id, generation: self.metas[id as int].generation }
        } else {
            Entity { id: self.metas.len() as u32, generation: 0 }
        }
    }

    pub open spec fn can_alloc(self) -> bool {
        self.free.len() > 0 || self.metas.len() < u32::MAX
    }

    /// The world after a slot for `next_entity` is taken in state `state`.
    pub open spec fn allocated(self, state: SlotState) -> WorldView<V> {
        let e = self.next_entity();
        if self.free.len() > 0 {
            WorldView {
                metas: self.metas.update(e.id as int, EntityMeta { generation: e.generation, state }),
                free: self.free.drop_last(),
                data: self.data,
                resources: self.resources,
                removed: self.removed,
                change_tick: self.change_tick,
                registered: self.registered,
            }
        } else {
            WorldView {
                metas: self.metas.push(EntityMeta { generation: 0, state }),
                free: self.free,
                data: self.data.push(EntityView::empty()),
                resources: self.resources,
                removed: self.removed,
                change_tick: self.change_tick,
                registered: self.registered,
            }
        }
    }

    /// The world after `e` is freed: its slot moves to the next generation, its data is
    /// dropped and each of its components logs the removal.
    pub open spec fn despawned(self, e: Entity) -> WorldView<V> {
        WorldView {
            metas: self.metas.update(
                e.id as int,
                EntityMeta { generation: next_generation(e.generation), state: SlotState::Free },
            ),
            free: self.free.push(e.id),
            data: self.data.update(e.id as int, EntityView::empty()),
            resources: self.resources,
            removed: note_removed(self.removed, self.components_of(e).dom(), e),
            change_tick: self.change_tick,
            registered: self.registered,
        }
    }

    /// The world after `e` is freed along with its data, with no removal logged.
    pub open spec fn freed(self, e: Entity) -> WorldView<V> {
        WorldView {
            metas: self.metas.update(
                e.id as int,
                EntityMeta { generation: next_generation(e.generation), state: SlotState::Free },
            ),
            free: self.free.push(e.id),
            data: self.data.update(e.id as int, EntityView::empty()),
            resources: self.resources,
            removed: self.removed,
            change_tick: self.change_tick,
            registered: self.registered,
        }
    }

    /// The world after the alive entities of the first `n` slots are freed in slot order,
    /// with no removal logged.
    pub open spec fn freed_upto(self, n: nat) -> WorldView<V>
        decreases n,
    {
        if n == 0 {
            self
        } else {
            let w = self.freed_upto((n - 1) as nat);
            let i = n - 1;
            if self.metas[i].state == SlotState::Alive {
                w.freed(Entity { id: i as u32, generation: self.metas[i].generation })
            } else {
                w
            }
        }
    }

    /// The world after component `k` of `e` is removed; the removal is logged when there
    /// was such a component.
    pub open spec fn without_component(self, e: Entity, k: ComponentId) -> WorldView<V> {
        if self.components_of(e).contains_key(k) {
            self.with_components(e, self.components_of(e).remove(k)).with_removed(
                note_removed(self.removed, set![k], e),
            )
        } else {
            self
        }
    }

    /// Whether every entity of `cs` is alive.
    pub open spec fn all_alive(self, cs: Seq<Entity>) -> bool {
        forall|k: int| 0 <= k < cs.len() ==> self.alive(#[trigger] cs[k])
    }

    /// Sets the parent link of every entity of `cs` (all alive) to `p`.
    pub open spec fn with_parents(self, cs: Seq<Entity>, p: Option<Entity>) -> WorldView<V> {
        WorldView {
            metas: self.metas,
            free: self.free,
            data: Seq::new(
                self.data.len(),
                |i: int|
                    if cs.map_values(|c: Entity| c.id as int).contains(i) {
                        EntityView {
                            components: self.data[i].components,
                            parent: p,
                            children: self.data[i].children,
                        }
                    } else {
                        self.data[i]
                    },
            ),
            resources: self.resources,
            removed: self.removed,
            change_tick: self.change_tick,
            registered: self.registered,
        }
    }

    /// Adds the pairs of `b` to the components of `e`, later pairs winning.
    pub open spec fn with_bundle(self, e: Entity, b: Seq<(ComponentId, V)>) -> WorldView<V>
        decreases b.len(),
    {
        if b.len() == 0 {
            self
        } else {
            let w = self.with_bundle(e, b.drop_last());
            w.with_component(e, b.last().0, b.last().1)
        }
    }

    /// Removes the components `ids` of `e` one after another, logging each removal.
    pub open spec fn without_components(self, e: Entity, ids: Seq<ComponentId>) -> WorldView<V>
        decreases ids.len(),
    {
        if ids.len() == 0 {
            self
        } else {
            self.without_components(e, ids.drop_last()).without_component(e, ids.last())
        }
    }

    /// The slot of `e` does not hold another live generation.
    pub open spec fn can_spawn_at(self, e: Entity) -> bool {
        !(e.id < self.metas.len() && self.metas[e.id as int].state == SlotState::Alive
            && self.metas[e.id as int].generation != e.generation)
    }

    /// The world after `e` is made alive in its own slot; slots skipped over become free.
    pub open spec fn spawned_at(self, e: Entity) -> WorldView<V> {
        let m = EntityMeta { generation: e.generation, state: SlotState::Alive };
        if e.id < self.metas.len() {
            WorldView {
                metas: self.metas.update(e.id as int, m),
                free: self.free.filter(other_id(e.id)),
                data: self.data,
                resources: self.resources,
                removed: self.removed,
                change_tick: self.change_tick,
                registered: self.registered,
            }
        } else {
            WorldView {
                metas: self.metas + Seq::new(
                    (e.id - self.metas.len()) as nat,
                    |k: int| EntityMeta { generation: 0, state: SlotState::Free },
                ) + seq![m],
                free: self.free + id_range(self.metas.len(), e.id as nat),
                data: self.data + Seq::new(
                    (e.id + 1 - self.metas.len()) as nat,
                    |k: int| EntityView::<V>::empty(),
                ),
                resources: self.resources,
                removed: self.removed,
                change_tick: self.change_tick,
                registered: self.registered,
            }
        }
    }

    /// Every reserved slot becomes alive.
    pub open spec fn flushed(self) -> WorldView<V> {
        WorldView {
            metas: flushed_metas(self.metas),
            free: self.free,
            data: self.data,
            resources: self.resources,
            removed: self.removed,
            change_tick: self.change_tick,
            registered: self.registered,
        }
    }

    /// Number of alive entities.
    pub open spec fn len(self) -> nat {
        count_alive(self.metas)
    }
}

/// Components and hierarchy links stored for one entity slot.
pub struct EntityData<V> {
    components: HashMap<ComponentId, V>,
    parent: Option<Entity>,
    children: Option<Vec<Entity>>,
}

pub open spec fn opt_seq(v: Option<Vec<Entity>>) -> Option<Seq<Entity>> {
    match v {
        Some(v) => Some(v@),
        None => None,
    }
}

impl<V> EntityData<V> {
    pub closed spec fn view(&self) -> EntityView<V> {
        EntityView { components: self.components@, parent: self.parent, children: opt_seq(self.children) }
    }

    fn empty() -> (r: EntityData<V>)
        ensures
            r.view() == EntityView::<V>::empty(),
    {
        EntityData { components: HashMap::new(), parent: None, children: None }
    }
}

pub open spec fn data_views<V>(data: Seq<EntityData<V>>) -> Seq<EntityView<V>> {
    data.map_values(|d: EntityData<V>| d.view())
}

pub open spec fn removed_views(removed: Map<ComponentId, Vec<Entity>>) -> Map<ComponentId, Seq<Entity>> {
    removed.map_values(|v: Vec<Entity>| v@)
}

/// Holds all entities, their components and hierarchy links, and the resources.
pub struct World<V> {
    entities: Entities,
    data: Vec<EntityData<V>>,
    resources: HashMap<ResourceId, V>,
    removed: HashMap<ComponentId, Vec<Entity>>,
    change_tick: u32,
    registered: HashSet<ComponentId>,
}

impl<V> View for World<V> {
    type V = WorldView<V>;

    closed spec fn view(&self) -> WorldView<V> {
        WorldView {
            metas: self.entities.metas(),
            free: self.entities.free_ids(),
            data: data_views(self.data@),
            resources: self.resources@,
            removed: removed_views(self.removed@),
            change_tick: self.change_tick,
            registered: self.registered@,
        }
    }
}

impl<V> World<V> {
    pub closed spec fn wf(&self) -> bool {
        &&& self.entities.wf()
        &&& self.data@.len() == self.entities.metas().len()
        &&& forall|i: int|
            0 <= i < self.data@.len() && self.entities.metas()[i].state != SlotState::Alive
                ==> (#[trigger] self.data@[i]).view() == EntityView::<V>::empty()
        &&& forall|i: int, k: ComponentId|
            0 <= i < self.data@.len() && #[trigger] self.data@[i].components@.contains_key(k)
                ==> self.registered@.contains(k)
        &&& forall|k: ComponentId| #[trigger] self.removed@.contains_key(k) ==> self.registered@.contains(k)
    }

    /// The view's invariants: a slot that holds no alive entity holds no data, and the free
    /// list and slot table agree.
    pub proof fn lemma_wf_view(&self)
        requires
            self.wf(),
        ensures
            self@.data.len() == self@.metas.len(),
            self@.metas.len() <= u32::MAX,
            forall|i: int|
                0 <= i < self@.data.len() && self@.metas[i].state != SlotState::Alive
                    ==> #[trigger] self@.data[i] == EntityView::<V>::empty(),
            forall|k: int|
                0 <= k < self@.free.len() ==> (#[trigger] self@.free[k]) < self@.metas.len()
                    && self@.metas[self@.free[k] as int].state == SlotState::Free,
    {
        self.entities.lemma_wf();
    }

    /// Every component an entity holds, and every component with a removal log, is
    /// registered: the removal log of a component that was never registered is empty.
    pub proof fn lemma_registered_covers(&self, e: Entity, k: ComponentId)
        requires
            self.wf(),
        ensures
            e.id < self@.data.len() && self@.components_of(e).contains_key(k) ==> self@.registered.contains(k),
            !self@.registered.contains(k) ==> removed_log(self@.removed, k) == Seq::<Entity>::empty(),
    {
        if e.id < self@.data.len() && self@.components_of(e).contains_key(k) {
            assert(self.data@[e.id as int].components@.contains_key(k));
        }
        if !self@.registered.contains(k) {
            assert(!self.removed@.contains_key(k));
        }
    }

    pub fn new() -> (w: World<V>)
        ensures
            w.wf(),
            w@.metas == Seq::<EntityMeta>::empty(),
            w@.free == Seq::<u32>::empty(),
            w@.data == Seq::<EntityView<V>>::empty(),
            w@.resources == Map::<ResourceId, V>::empty(),
            w@.removed == Map::<ComponentId, Seq<Entity>>::empty(),
            w@.change_tick == 0,
            w@.registered == Set::<ComponentId>::empty(),
    {
        let w = World {
            entities: Entities::new(),
            data: Vec::new(),
            resources: HashMap::new(),
            removed: HashMap::new(),
            change_tick: 0,
            registered: HashSet::new(),
        };
        proof {
            assert(data_views(w.data@) =~= Seq::<EntityView<V>>::empty());
            assert(removed_views(w.removed@) =~= Map::<ComponentId, Seq<Entity>>::empty());
        }
        w
    }

    pub fn entities(&self) -> (r: &Entities)
        ensures
            r.metas() == self@.metas,
            r.free_ids() == self@.free,
            self.wf() ==> r.wf(),
    {
        &self.entities
    }

    pub fn has_entity(&self, e: Entity) -> (r: bool)
        ensures
            r == self@.alive(e),
    {
        self.entities.contains(e)
    }

    /// Takes the slot of `next_entity` in state `state`.
    pub(crate) fn take_slot(&mut self, state: SlotState) -> (e: Entity)
        requires
            old(self).wf(),
            old(self)@.can_alloc(),
            state != SlotState::Free,
        ensures
            final(self).wf(),
            e == old(self)@.next_entity(),
            final(self)@ == old(self)@.allocated(state),
    {
        proof {
            self.entities.lemma_wf();
        }
        let e = self.entities.alloc_with(state);
        if e.id as usize == self.data.len() {
            self.data.push(EntityData::empty());
        }
        proof {
            self.entities.lemma_wf();
            if old(self)@.free.len() > 0 {
                let id = old(self)@.free.last();
                assert(old(self).entities.free_ids().contains(id));
                assert(old(self)@.metas[id as int].state == SlotState::Free);
                assert(self.data@ == old(self).data@);
            } else {
                assert(data_views(self.data@) =~= data_views(old(self).data@).push(EntityView::empty()));
            }
            assert forall|i: int|
                0 <= i < self.data@.len() && self.entities.metas()[i].state != SlotState::Alive
                    implies (#[trigger] self.data@[i]).view() == EntityView::<V>::empty() by {
                if i < old(self).data@.len() {
                    assert(self.data@[i] == old(self).data@[i]);
                    if i != e.id {
                        assert(self.entities.metas()[i] == old(self).entities.metas()[i]);
                    }
                }
            }
        }
        e
    }

    /// Reserves a handle that becomes a live entity at the next `flush`.
    pub fn reserve_entity(&mut self) -> (e: Entity)
        requires
            old(self).wf(),
            old(self)@.can_alloc(),
        ensures
            final(self).wf(),
            e == old(self)@.next_entity(),
            final(self)@ == old(self)@.allocated(SlotState::Reserved),
    {
        self.take_slot(SlotState::Reserved)
    }

    /// Turns all reserved handles into live entities without components.
    pub fn flush(&mut self)
        requires
            old(self).wf(),
        ensures
            final(self).wf(),
            final(self)@ == old(self)@.flushed(),
    {
        self.entities.flush();
        proof {
            assert forall|i: int|
                0 <= i < self.data@.len() && self.entities.metas()[i].state != SlotState::Alive
                    implies (#[trigger] self.data@[i]).view() == EntityView::<V>::empty() by {
                assert(self.entities.metas()[i] == crate::ecs::entity::flush_meta(old(self).entities.metas()[i]));
            }
        }
    }

    /// Number of alive entities.
    pub fn len(&self) -> (r: usize)
        requires
            self.wf(),
        ensures
            r == self@.len(),
    {
        self.entities.len()
    }

    /// Frees the slot of `e`, drops its data and logs the removal of each of its components.
    pub(crate) fn despawn_self(&mut self, e: Entity)
        requires
            old(self).wf(),
            old(self)@.alive(e),
        ensures
            final(self).wf(),
            final(self)@ == old(self)@.despawned(e),
    {
        let i = e.id as usize;
        let keys = self.component_ids(e);
        self.data.set(i, EntityData::empty());
        let mut j: usize = 0;
        while j < keys.len()
            invariant
                self.change_tick == old(self).change_tick,
                self.registered@ == old(self).registered@,
                self.wf_except_entities(),
                self.entities == old(self).entities,
                self.resources == old(self).resources,
                self.data@ == old(self).data@.update(i as int, self.data@[i as int]),
                self.data@[i as int].view() == EntityView::<V>::empty(),
                keys@.to_set() == old(self)@.components_of(e).dom(),
                keys@.no_duplicates(),
                j <= keys.len(),
                removed_views(self.removed@) == note_removed(
                    old(self)@.removed,
                    keys@.take(j as int).to_set(),
                    e,
                ),
            decreases keys.len() - j,
        {
            let k = keys[j];
            let ghost old_removed = self.removed@;
            let mut log = match self.removed.remove(&k) {
                Some(v) => v,
                None => Vec::new(),
            };
            log.push(e);
            self.removed.insert(k, log);
            proof {
                let before = keys@.take(j as int).to_set();
                assert(keys@.take(j as int + 1) =~= keys@.take(j as int).push(k));
                keys@.take(j as int).lemma_push_to_set_commute(k);
                assert(keys@.take(j as int + 1).to_set() =~= before.insert(k));
                assert(!before.contains(k)) by {
                    if before.contains(k) {
                        let t = choose|t: int| 0 <= t < j && keys@[t] == k;
                        assert(keys@[t] == keys@[j as int]);
                    }
                }
                assert(removed_views(self.removed@) =~= removed_views(old_removed).insert(k, removed_log(removed_views(old_removed), k).push(e)));
                assert(removed_views(self.removed@) =~= note_removed(
                    old(self)@.removed,
                    before.insert(k),
                    e,
                ));
            }
            j = j + 1;
        }
        self.entities.free(e);
        proof {
            assert(keys@.take(keys@.len() as int) =~= keys@);
            assert(data_views(self.data@) =~= data_views(old(self).data@).update(
                i as int,
                EntityView::empty(),
            ));
            assert forall|t: int|
                0 <= t < self.data@.len() && self.entities.metas()[t].state != SlotState::Alive
                    implies (#[trigger] self.data@[t]).view() == EntityView::<V>::empty() by {
                if t != i {
                    assert(self.data@[t] == old(self).data@[t]);
                    assert(self.entities.metas()[t] == old(self).entities.metas()[t]);
                }
            }
            assert forall|t: int, k: ComponentId|
                0 <= t < self.data@.len() && #[trigger] self.data@[t].components@.contains_key(k)
                    implies self.registered@.contains(k) by {
                if t != i {
                    assert(self.data@[t] == old(self).data@[t]);
                } else {
                    assert(self.data@[t].view().components.contains_key(k));
                }
            }
            assert forall|k: ComponentId| #[trigger] self.removed@.contains_key(k) implies self.registered@.contains(k) by {
                assert(removed_views(self.removed@).contains_key(k));
                if !old(self).removed@.contains_key(k) {
                    assert(!old(self)@.removed.contains_key(k));
                    assert(old(self)@.components_of(e).contains_key(k));
                    assert(old(self).data@[i as int].view().components.contains_key(k));
                }
            }
        }
    }

    pub closed spec fn wf_except_entities(&self) -> bool {
        self.data@.len() == self.entities.metas().len()
    }

    /// The component ids that `e` has, each once.
    pub fn component_ids(&self, e: Entity) -> (r: Vec<ComponentId>)
        requires
            self.wf(),
            e.id < self@.metas.len(),
        ensures
            r@.to_set() == self@.components_of(e).dom(),
            r@.no_duplicates(),
    {
        let m = &self.data[e.id as usize].components;
        let mut out: Vec<ComponentId> = Vec::new();
        let ghost ks = m.keys().remaining();
        for k in it: m.keys()
            invariant
                it.seq() == ks,
                out@ == ks.take(it.index() as int).map_values(|x: &u32| *x),
        {
            out.push(*k);
        }
        proof {
            assert(ks.take(ks.len() as int) =~= ks);
            assert(ks.unref() =~= out@);
            assert(out@.to_set() =~= m@.dom());
            assert(out@.no_duplicates()) by {
                assert forall|a: int, b: int| 0 <= a < out@.len() && 0 <= b < out@.len() && a != b
                    implies out@[a] != out@[b] by {
                    assert(out@[a] == *ks[a]);
                    assert(out@[b] == *ks[b]);
                }
            }
        }
        out
    }

    /// Adds or replaces component `k` of `e`, handing back the value it replaced.
    pub fn insert_component(&mut self, e: Entity, k: ComponentId, v: V) -> (r: Option<V>)
        requires
            old(self).wf(),
            old(self)@.alive(e),
        ensures
            final(self).wf(),
            final(self)@ == old(self)@.with_component(e, k, v),
            r == old(self)@.components_of(e).get(k),
    {
        let i = e.id as usize;
        let r = self.data[i].components.insert(k, v);
        self.registered.insert(k);
        proof {
            assert(data_views(self.data@) =~= data_views(old(self).data@).update(
                i as int,
                old(self)@.with_components(e, old(self)@.components_of(e).insert(k, v)).data[i as int],
            ));
            self.lemma_wf_keep(old(self), i as int);
        }
        r
    }

    /// The invariant survives a change to the data of an alive slot.
    proof fn lemma_wf_keep(&self, prev: &World<V>, i: int)
        requires
            prev.wf(),
            self.entities == prev.entities,
            0 <= i < prev.data@.len(),
            prev.entities.metas()[i].state == SlotState::Alive,
            self.data@.len() == prev.data@.len(),
            forall|t: int| 0 <= t < self.data@.len() && t != i ==> self.data@[t] == prev.data@[t],
            forall|k: ComponentId| #[trigger] prev.registered@.contains(k) ==> self.registered@.contains(k),
            forall|k: ComponentId| #[trigger] self.data@[i].components@.contains_key(k) ==> self.registered@.contains(k),
            forall|k: ComponentId| #[trigger] self.removed@.contains_key(k) ==> self.registered@.contains(k),
        ensures
            self.wf(),
    {
        assert forall|t: int|
            0 <= t < self.data@.len() && self.entities.metas()[t].state != SlotState::Alive
                implies (#[trigger] self.data@[t]).view() == EntityView::<V>::empty() by {
            assert(self.data@[t] == prev.data@[t]);
        }
        assert forall|t: int, k: ComponentId|
            0 <= t < self.data@.len() && #[trigger] self.data@[t].components@.contains_key(k)
                implies self.registered@.contains(k) by {
            if t != i {
                assert(self.data@[t] == prev.data@[t]);
                assert(prev.registered@.contains(k));
            }
        }
    }

    /// Removes component `k` of `e` and logs the removal when there was one.
    pub fn remove_component(&mut self, e: Entity, k: ComponentId) -> (r: Option<V>)
        requires
            old(self).wf(),
            old(self)@.alive(e),
        ensures
            final(self).wf(),
            final(self)@ == old(self)@.without_component(e, k),
            r == old(self)@.components_of(e).get(k),
    {
        let i = e.id as usize;
        let r = self.data[i].components.remove(&k);
        proof {
            self.lemma_wf_keep(old(self), i as int);
        }
        match r {
            Some(v) => {
                let mut log = match self.removed.remove(&k) {
                    Some(l) => l,
                    None => Vec::new(),
                };
                log.push(e);
                self.removed.insert(k, log);
                proof {
                    assert(removed_views(self.removed@) =~= note_removed(
                        old(self)@.removed,
                        set![k],
                        e,
                    ));
                    assert(data_views(self.data@) =~= data_views(old(self).data@).update(
                        i as int,
                        old(self)@.with_components(e, old(self)@.components_of(e).remove(k)).data[i as int],
                    ));
                }
                Some(v)
            },
            None => {
                proof {
                    assert(self.data@[i as int].components@ =~= old(self).data@[i as int].components@);
                    assert(data_views(self.data@) =~= data_views(old(self).data@));
                }
                None
            },
        }
    }

    /// Registers component `k`; nothing else changes.
    pub fn register_component(&mut self, k: ComponentId) -> (r: ComponentId)
        ensures
            r == k,
            final(self)@ == (WorldView { registered: old(self)@.registered.insert(k), ..old(self)@ }),
            old(self).wf() ==> final(self).wf(),
    {
        self.registered.insert(k);
        k
    }

    /// Whether component `k` has been registered.
    pub fn is_registered(&self, k: ComponentId) -> (r: bool)
        ensures
            r == self@.registered.contains(k),
    {
        self.registered.contains(&k)
    }

    pub fn contains_component(&self, e: Entity, k: ComponentId) -> (r: bool)
        requires
            self.wf(),
            self@.alive(e),
        ensures
            r == self@.components_of(e).contains_key(k),
    {
        self.data[e.id as usize].components.contains_key(&k)
    }

    pub fn get_component(&self, e: Entity, k: ComponentId) -> (r: Option<&V>)
        requires
            self.wf(),
            self@.alive(e),
        ensures
            match r {
                Some(v) => self@.components_of(e).contains_key(k) && *v == self@.components_of(e)[k],
                None => !self@.components_of(e).contains_key(k),
            },
    {
        self.data[e.id as usize].components.get(&k)
    }

    pub fn parent_of(&self, e: Entity) -> (r: Option<Entity>)
        requires
            self.wf(),
            e.id < self@.metas.len(),
        ensures
            r == self@.parent_of(e),
    {
        self.data[e.id as usize].parent
    }

    pub fn children_of(&self, e: Entity) -> (r: Option<&[Entity]>)
        requires
            self.wf(),
            e.id < self@.metas.len(),
        ensures
            match r {
                Some(c) => self@.children_of(e) == Some(c@),
                None => self@.children_of(e).is_none(),
            },
    {
        match &self.data[e.id as usize].children {
            Some(c) => Some(c.as_slice()),
            None => None,
        }
    }

    pub(crate) fn set_parent(&mut self, e: Entity, p: Option<Entity>)
        requires
            old(self).wf(),
            old(self)@.alive(e),
        ensures
            final(self).wf(),
            final(self)@ == old(self)@.with_parent(e, p),
    {
        let i = e.id as usize;
        self.data[i].parent = p;
        proof {
            assert(data_views(self.data@) =~= data_views(old(self).data@).update(
                i as int,
                old(self)@.with_parent(e, p).data[i as int],
            ));
            self.lemma_wf_keep(old(self), i as int);
        }
    }

    pub(crate) fn set_children(&mut self, e: Entity, c: Option<Vec<Entity>>)
        requires
            old(self).wf(),
            old(self)@.alive(e),
        ensures
            final(self).wf(),
            final(self)@ == old(self)@.with_children(e, opt_seq(c)),
    {
        let i = e.id as usize;
        self.data[i].children = c;
        proof {
            assert(data_views(self.data@) =~= data_views(old(self).data@).update(
                i as int,
                old(self)@.with_children(e, opt_seq(c)).data[i as int],
            ));
            self.lemma_wf_keep(old(self), i as int);
        }
    }

    /// Moves the children list of `e` out, leaving no list behind.
    pub(crate) fn take_children(&mut self, e: Entity) -> (r: Option<Vec<Entity>>)
        requires
            old(self).wf(),
            old(self)@.alive(e),
        ensures
            final(self).wf(),
            final(self)@ == old(self)@.with_children(e, None),
            opt_seq(r) == old(self)@.children_of(e),
    {
        let i = e.id as usize;
        let r = self.data[i].children.take();
        proof {
            assert(data_views(self.data@) =~= data_views(old(self).data@).update(
                i as int,
                old(self)@.with_children(e, None).data[i as int],
            ));
            self.lemma_wf_keep(old(self), i as int);
        }
        r
    }

    pub fn insert_resource(&mut self, id: ResourceId, value: V) -> (r: Option<V>)
        ensures
            final(self)@ == old(self)@.with_resources(old(self)@.resources.insert(id, value)),
            r == old(self)@.resources.get(id),
            old(self).wf() ==> final(self).wf(),
    {
        self.resources.insert(id, value)
    }

    /// Adds or replaces a resource, dropping any value it replaces.
    pub fn add_resource(&mut self, id: ResourceId, value: V)
        ensures
            final(self)@ == old(self)@.with_resources(old(self)@.resources.insert(id, value)),
            old(self).wf() ==> final(self).wf(),
    {
        self.resources.insert(id, value);
    }

    pub fn remove_resource(&mut self, id: ResourceId) -> (r: Option<V>)
        ensures
            final(self)@ == old(self)@.with_resources(old(self)@.resources.remove(id)),
            r == old(self)@.resources.get(id),
            old(self).wf() ==> final(self).wf(),
    {
        self.resources.remove(&id)
    }

    pub fn contains_resource(&self, id: ResourceId) -> (r: bool)
        ensures
            r == self@.resources.contains_key(id),
    {
        self.resources.contains_key(&id)
    }

    pub fn get_resource(&self, id: ResourceId) -> (r: Option<&V>)
        ensures
            match r {
                Some(v) => self@.resources.contains_key(id) && *v == self@.resources[id],
                None => !self@.resources.contains_key(id),
            },
    {
        self.resources.get(&id)
    }

    pub fn resource(&self, id: ResourceId) -> (r: &V)
        requires
            self@.resources.contains_key(id),
        ensures
            *r == self@.resources[id],
    {
        self.resources.get(&id).unwrap()
    }

    pub fn get_resource_mut(&mut self, id: ResourceId) -> (r: Option<&mut V>)
        ensures
            match r {
                Some(v) => old(self)@.resources.contains_key(id) && *v == old(self)@.resources[id]
                    && final(self)@ == old(self)@.with_resources(
                    old(self)@.resources.insert(id, *final(v)),
                ),
                None => !old(self)@.resources.contains_key(id) && final(self)@ == old(self)@,
            },
            old(self).wf() ==> final(self).wf(),
    {
        hash_map_get_mut(&mut self.resources, id)
    }

    pub fn resource_mut(&mut self, id: ResourceId) -> (r: &mut V)
        requires
            old(self)@.resources.contains_key(id),
        ensures
            *r == old(self)@.resources[id],
            final(self)@ == old(self)@.with_resources(old(self)@.resources.insert(id, *final(r))),
            old(self).wf() ==> final(self).wf(),
    {
        hash_map_get_mut(&mut self.resources, id).unwrap()
    }

    /// The entities whose component `k` was removed since the trackers were last cleared,
    /// oldest first.
    pub fn removed_with_id(&self, k: ComponentId) -> (r: &[Entity])
        ensures
            r@ == removed_log(self@.removed, k),
    {
        match self.removed.get(&k) {
            Some(v) => v.as_slice(),
            None => &[],
        }
    }

    /// Empties every removal log.
    pub fn clear_trackers(&mut self)
        ensures
            final(self)@ == old(self)@.with_removed(
                old(self)@.removed.map_values(|l: Seq<Entity>| Seq::<Entity>::empty()),
            ),
            old(self).wf() ==> final(self).wf(),
    {
        let mut keys: Vec<ComponentId> = Vec::new();
        let ghost ks = self.removed.keys().remaining();
        for k in it: self.removed.keys()
            invariant
                self.change_tick == old(self).change_tick,
                self.registered@ == old(self).registered@,
                it.seq() == ks,
                keys@ == ks.take(it.index() as int).map_values(|x: &u32| *x),
        {
            keys.push(*k);
        }
        proof {
            assert(ks.take(ks.len() as int) =~= ks);
            assert(ks.unref() =~= keys@);
        }
        let mut j: usize = 0;
        while j < keys.len()
            invariant
                self.change_tick == old(self).change_tick,
                self.registered@ == old(self).registered@,
                j <= keys.len(),
                keys@.to_set() == old(self).removed@.dom(),
                self.entities == old(self).entities,
                self.data == old(self).data,
                self.resources == old(self).resources,
                self.removed@.dom() == old(self).removed@.dom(),
                forall|k: ComponentId| #[trigger] self.removed@.contains_key(k) ==>
                    (if keys@.take(j as int).contains(k) {
                        self.removed@[k]@ == Seq::<Entity>::empty()
                    } else {
                        self.removed@[k] == old(self).removed@[k]
                    }),
            decreases keys.len() - j,
        {
            let k = keys[j];
            self.removed.insert(k, Vec::new());
            proof {
                assert(keys@.take(j as int + 1) =~= keys@.take(j as int).push(k));
                keys@.take(j as int).lemma_push_to_set_commute(k);
                assert(keys@.to_set().contains(k));
                assert forall|k2: ComponentId| #[trigger] self.removed@.contains_key(k2) implies
                    (if keys@.take(j as int + 1).contains(k2) {
                        self.removed@[k2]@ == Seq::<Entity>::empty()
                    } else {
                        self.removed@[k2] == old(self).removed@[k2]
                    }) by {
                    assert(keys@.take(j as int + 1).to_set().contains(k2) == keys@.take(j as int + 1).contains(k2));
                    assert(keys@.take(j as int).to_set().contains(k2) == keys@.take(j as int).contains(k2));
                }
            }
            j = j + 1;
        }
        proof {
            assert(keys@.take(keys@.len() as int) =~= keys@);
            assert forall|k: ComponentId| #[trigger] self.removed@.contains_key(k) implies keys@.contains(k) by {
                assert(keys@.to_set().contains(k));
            }
            assert(removed_views(self.removed@) =~= removed_views(old(self).removed@).map_values(
                |l: Seq<Entity>| Seq::<Entity>::empty(),
            ));
        }
    }

    pub fn change_tick(&self) -> (r: u32)
        ensures
            r == self@.change_tick,
    {
        self.change_tick
    }

    /// Advances the change tick, wrapping around, and hands back the tick before.
    pub fn increment_change_tick(&mut self) -> (r: u32)
        ensures
            r == old(self)@.change_tick,
            final(self)@ == (WorldView { change_tick: next_generation(old(self)@.change_tick), ..old(self)@ }),
            old(self).wf() ==> final(self).wf(),
    {
        let r = self.change_tick;
        self.change_tick = self.change_tick.wrapping_add(1);
        r
    }

    /// Sets the parent link of every entity of `cs` to `p`.
    pub(crate) fn set_parents(&mut self, cs: &[Entity], p: Option<Entity>)
        requires
            old(self).wf(),
            old(self)@.all_alive(cs@),
        ensures
            final(self).wf(),
            final(self)@ == old(self)@.with_parents(cs@, p),
    {
        let mut k: usize = 0;
        proof {
            assert(old(self)@.with_parents(cs@.take(0), p) =~= old(self)@);
        }
        while k < cs.len()
            invariant
                k <= cs.len(),
                self.wf(),
                old(self)@.all_alive(cs@),
                self@ == old(self)@.with_parents(cs@.take(k as int), p),
            decreases cs.len() - k,
        {
            let c = cs[k];
            proof {
                assert(old(self)@.alive(cs@[k as int]));
            }
            self.set_parent(c, p);
            proof {
                let ids = |x: Entity| x.id as int;
                let prev = cs@.take(k as int).map_values(ids);
                let next = cs@.take(k as int + 1).map_values(ids);
                assert(next =~= prev.push(c.id as int));
                assert forall|i: int| next.contains(i) <==> (prev.contains(i) || i == c.id as int) by {
                    if next.contains(i) {
                        let t = choose|t: int| 0 <= t < next.len() && next[t] == i;
                        if t < prev.len() {
                            assert(prev[t] == i);
                        }
                    }
                    if prev.contains(i) {
                        let t = choose|t: int| 0 <= t < prev.len() && prev[t] == i;
                        assert(next[t] == i);
                    }
                    if i == c.id as int {
                        assert(next[k as int] == i);
                    }
                }
                assert(self@ =~= old(self)@.with_parents(cs@.take(k as int + 1), p));
            }
            k = k + 1;
        }
        proof {
            assert(cs@.take(cs@.len() as int) =~= cs@);
        }
    }

    /// Makes `e` alive in its own slot when it is not alive and its slot does not hold
    /// another live generation.
    pub(crate) fn spawn_at(&mut self, e: Entity)
        requires
            old(self).wf(),
            !old(self)@.alive(e),
            old(self)@.can_spawn_at(e),
            e.id < u32::MAX,
        ensures
            final(self).wf(),
            final(self)@ == old(self)@.spawned_at(e),
    {
        proof {
            self.lemma_wf_view();
        }
        self.entities.alloc_at(e);
        while self.data.len() < self.entities.meta_len()
            invariant
                self.change_tick == old(self).change_tick,
                self.registered@ == old(self).registered@,
                self.entities.wf(),
                self.entities.metas() == old(self).entities.metas_at(e),
                self.entities.free_ids() == old(self).entities.free_at(e),
                self.resources == old(self).resources,
                self.removed == old(self).removed,
                old(self).data@.len() <= self.data@.len() <= self.entities.metas().len(),
                self.data@.subrange(0, old(self).data@.len() as int) == old(self).data@,
                forall|t: int| old(self).data@.len() <= t < self.data@.len() ==> (#[trigger] self.data@[t]).view() == EntityView::<V>::empty(),
            decreases self.entities.metas().len() - self.data@.len(),
        {
            self.data.push(EntityData::empty());
            proof {
                assert(self.data@.subrange(0, old(self).data@.len() as int) =~= old(self).data@);
            }
        }
        proof {
            let n0 = old(self).data@.len();
            if e.id < n0 {
                assert(self.data@ =~= old(self).data@);
                assert forall|t: int| 0 <= t < self.data@.len() && self.entities.metas()[t].state != SlotState::Alive
                    implies (#[trigger] self.data@[t]).view() == EntityView::<V>::empty() by {
                    assert(t != e.id);
                    assert(self.entities.metas()[t] == old(self).entities.metas()[t]);
                }
            } else {
                assert(data_views(self.data@) =~= data_views(old(self).data@) + Seq::new(
                    (e.id + 1 - n0) as nat,
                    |k: int| EntityView::<V>::empty(),
                )) by {
                    assert forall|t: int| 0 <= t < self.data@.len() implies #[trigger] data_views(self.data@)[t]
                        == (data_views(old(self).data@) + Seq::new((e.id + 1 - n0) as nat, |k: int| EntityView::<V>::empty()))[t] by {
                        if t < n0 {
                            assert(self.data@[t] == self.data@.subrange(0, n0 as int)[t]);
                        }
                    }
                }
                assert forall|t: int| 0 <= t < self.data@.len() && self.entities.metas()[t].state != SlotState::Alive
                    implies (#[trigger] self.data@[t]).view() == EntityView::<V>::empty() by {
                    if t < n0 {
                        assert(self.data@[t] == self.data@.subrange(0, n0 as int)[t]);
                        assert(self.entities.metas()[t] == old(self).entities.metas()[t]);
                    }
                }
            }
            assert forall|t: int, k: ComponentId|
                0 <= t < self.data@.len() && #[trigger] self.data@[t].components@.contains_key(k)
                    implies self.registered@.contains(k) by {
                if t < n0 {
                    assert(self.data@[t] == self.data@.subrange(0, n0 as int)[t]);
                } else {
                    assert(self.data@[t].view().components.contains_key(k));
                }
            }
            assert(self@ =~= old(self)@.spawned_at(e));
        }
    }

    /// Whether slot `id` holds a live entity.
    pub fn slot_is_alive(&self, id: u32) -> (r: bool)
        requires
            self.wf(),
            id < self@.metas.len(),
        ensures
            r == (self@.metas[id as int].state == SlotState::Alive),
    {
        self.entities.slot_state(id) == SlotState::Alive
    }

    /// The entities that lost component `k` since the trackers were last cleared, oldest
    /// first.
    pub fn removed(&self, k: ComponentId) -> (r: &[Entity])
        ensures
            r@ == removed_log(self@.removed, k),
    {
        self.removed_with_id(k)
    }

    /// Exclusive access to component `k` of `e`.
    pub fn get_component_mut(&mut self, e: Entity, k: ComponentId) -> (r: Option<&mut V>)
        requires
            old(self).wf(),
            old(self)@.alive(e),
        ensures
            match r {
                Some(v) => {
                    &&& old(self)@.components_of(e).contains_key(k)
                    &&& *v == old(self)@.components_of(e)[k]
                    &&& final(self)@ == old(self)@.with_components(
                        e,
                        old(self)@.components_of(e).insert(k, *final(v)),
                    )
                },
                None => !old(self)@.components_of(e).contains_key(k) && final(self)@ == old(self)@,
            },
            final(self).wf(),
    {
        proof {
            self.lemma_wf_view();
        }
        let i = e.id as usize;
        proof {
            assert forall|d: EntityData<V>| #[trigger] data_views(old(self).data@.update(i as int, d))
                == data_views(old(self).data@).update(i as int, d.view()) by {
                assert(data_views(old(self).data@.update(i as int, d)) =~= data_views(old(self).data@).update(i as int, d.view()));
            }
            assert forall|d: EntityData<V>| d.view().components == old(self)@.components_of(e) && d.parent == old(self).data@[i as int].parent
                && d.children == old(self).data@[i as int].children implies #[trigger] data_views(old(self).data@.update(i as int, d))
                == data_views(old(self).data@) by {
                assert(data_views(old(self).data@.update(i as int, d)) =~= data_views(old(self).data@));
            }
        }
        let r = hash_map_get_mut(&mut self.data[i].components, k);
        r
    }
}

impl<V> World<V> {
    /// Frees every alive entity, in slot order, and drops its data; no removal is logged.
    pub fn despawn_all(&mut self)
        requires
            old(self).wf(),
        ensures
            final(self).wf(),
            final(self)@ == old(self)@.freed_upto(old(self)@.metas.len()),
    {
        proof {
            self.lemma_wf_view();
        }
        let n = self.entities.meta_len();
        for i in 0..n
            invariant
                self.wf(),
                n == old(self)@.metas.len(),
                n <= u32::MAX,
                self@ == old(self)@.freed_upto(i as nat),
                self@.metas.len() == n,
                forall|t: int| i <= t < n ==> #[trigger] self@.metas[t] == old(self)@.metas[t],
        {
            let meta = self.entities.slot_meta(i as u32);
            if meta.state == SlotState::Alive {
                let e = Entity { id: i as u32, generation: meta.generation };
                let ghost w = self@;
                let ghost pre_data = self.data@;
                let ghost pre_metas = self.entities.metas();
                proof {
                    self.lemma_wf_view();
                }
                self.entities.free(e);
                self.data.set(i, EntityData::empty());
                proof {
                    assert(data_views(self.data@) =~= w.data.update(i as int, EntityView::empty())) by {
                        assert forall|t: int| 0 <= t < self.data@.len() implies #[trigger] data_views(self.data@)[t]
                            == w.data.update(i as int, EntityView::empty())[t] by {
                        }
                    }
                    assert(self@ =~= w.freed(e));
                    assert forall|t: int| 0 <= t < self.data@.len() && self.entities.metas()[t].state != SlotState::Alive
                        implies (#[trigger] self.data@[t]).view() == EntityView::<V>::empty() by {
                        if t != i as int {
                            assert(self.data@[t] == pre_data[t]);
                            assert(self.entities.metas()[t] == pre_metas[t]);
                        }
                    }
                }
            }
        }
    }
}

/// A value made from a world, such as a resource's initial value.
pub trait FromWorld<V>: Sized {
    fn from_world(world: &mut World<V>) -> Self;
}

impl<V, T: Default> FromWorld<V> for T {
    /// The default value; the world is left as it is.
    fn from_world(world: &mut World<V>) -> (r: T)
        ensures
            *final(world) == *old(world),
            call_ensures(T::default, (), r),
    {
        T::default()
    }
}

} // verus!
