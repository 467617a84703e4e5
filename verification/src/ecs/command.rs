//! Deferred world changes: commands, the queue that holds them, and the builders that
//! record them.
use vstd::prelude::*;
use vstd::std_specs::iter::IteratorSpec;

use crate::ecs::entity::{ComponentId, Entity, ResourceId, SlotState};
use crate::ecs::entity_ref::batch_view;
use crate::ecs::world::{removed_log, World, WorldView};

verus! {

/// A change to a world that is recorded now and written later.
pub trait Command<V>: Sized {
    /// Writing the command to a world in state `w` does not panic. A command that does
    /// not say otherwise can be written to every well-formed world.
    open spec fn can_write(&self, w: WorldView<V>) -> bool {
        true
    }

    /// The state of the world after the command is written to a world in state `w`.
    open spec fn written(&self, w: WorldView<V>) -> WorldView<V> {
        w
    }

    fn write(self, world: &mut World<V>)
        requires
            old(world).wf(),
            self.can_write(old(world)@),
        ensures
            final(world).wf(),
            final(world)@ == self.written(old(world)@),
    ;
}

/// Fetches or spawns an entity in its own slot.
pub struct GetOrSpawn {
    pub entity: Entity,
}

impl<V> Command<V> for GetOrSpawn {
    open spec fn can_write(&self, w: WorldView<V>) -> bool {
        self.entity.id < u32::MAX
    }

    open spec fn written(&self, w: WorldView<V>) -> WorldView<V> {
        if w.can_spawn_at(self.entity) {
            w.got_or_spawned(self.entity)
        } else {
            w
        }
    }

    fn write(self, world: &mut World<V>) {
        world.get_or_spawn(self.entity);
    }
}

/// Fetches or spawns each entity of a batch and adds its bundle.
pub struct InsertOrSpawnBatch<V> {
    pub bundles: Vec<(Entity, Vec<(ComponentId, V)>)>,
}

impl<V> Command<V> for InsertOrSpawnBatch<V> {
    open spec fn can_write(&self, w: WorldView<V>) -> bool {
        forall|k: int| 0 <= k < self.bundles@.len() ==> (#[trigger] self.bundles@[k]).0.id < u32::MAX
    }

    open spec fn written(&self, w: WorldView<V>) -> WorldView<V> {
        w.batch_inserted(batch_view(self.bundles@))
    }

    fn write(self, world: &mut World<V>) {
        world.insert_or_spawn_batch(self.bundles);
    }
}

/// Despawns an entity, which must be alive.
pub struct Despawn {
    pub entity: Entity,
}

impl<V> Command<V> for Despawn {
    open spec fn can_write(&self, w: WorldView<V>) -> bool {
        w.can_despawn(self.entity)
    }

    open spec fn written(&self, w: WorldView<V>) -> WorldView<V> {
        w.despawned_alone(self.entity)
    }

    fn write(self, world: &mut World<V>) {
        world.despawn(self.entity);
    }
}

/// Despawns an entity, which must be alive, with everything below it.
pub struct DespawnRecursive {
    pub entity: Entity,
}

impl<V> Command<V> for DespawnRecursive {
    open spec fn can_write(&self, w: WorldView<V>) -> bool {
        w.can_despawn_recursive(self.entity)
    }

    open spec fn written(&self, w: WorldView<V>) -> WorldView<V> {
        w.despawned_recursive(self.entity)
    }

    fn write(self, world: &mut World<V>) {
        world.despawn_recursive(self.entity);
    }
}

/// Adds a bundle of components to an alive entity.
pub struct InsertBundle<V> {
    pub entity: Entity,
    pub bundle: Vec<(ComponentId, V)>,
}

impl<V> Command<V> for InsertBundle<V> {
    open spec fn can_write(&self, w: WorldView<V>) -> bool {
        w.alive(self.entity)
    }

    open spec fn written(&self, w: WorldView<V>) -> WorldView<V> {
        w.with_bundle(self.entity, self.bundle@)
    }

    fn write(self, world: &mut World<V>) {
        world.entity_mut(self.entity).insert_bundle(self.bundle);
    }
}

/// Adds or replaces one component of an alive entity.
pub struct Insert<V> {
    pub entity: Entity,
    pub id: ComponentId,
    pub component: V,
}

impl<V> Command<V> for Insert<V> {
    open spec fn can_write(&self, w: WorldView<V>) -> bool {
        w.alive(self.entity)
    }

    open spec fn written(&self, w: WorldView<V>) -> WorldView<V> {
        w.with_component(self.entity, self.id, self.component)
    }

    fn write(self, world: &mut World<V>) {
        world.entity_mut(self.entity).insert(self.id, self.component);
    }
}

/// Removes one component of an entity, when the entity is alive.
pub struct Remove {
    pub entity: Entity,
    pub id: ComponentId,
}

impl<V> Command<V> for Remove {
    open spec fn can_write(&self, w: WorldView<V>) -> bool {
        true
    }

    open spec fn written(&self, w: WorldView<V>) -> WorldView<V> {
        if w.alive(self.entity) {
            w.without_component(self.entity, self.id)
        } else {
            w
        }
    }

    fn write(self, world: &mut World<V>) {
        match world.get_entity_mut(self.entity) {
            Some(em) => {
                let mut em = em;
                em.remove(self.id);
            },
            None => {},
        }
    }
}

/// Removes the components of a bundle that an entity has, when the entity is alive.
pub struct RemoveBundle {
    pub entity: Entity,
    pub ids: Vec<ComponentId>,
}

impl<V> Command<V> for RemoveBundle {
    open spec fn can_write(&self, w: WorldView<V>) -> bool {
        true
    }

    open spec fn written(&self, w: WorldView<V>) -> WorldView<V> {
        if w.alive(self.entity) {
            w.without_components(self.entity, self.ids@)
        } else {
            w
        }
    }

    fn write(self, world: &mut World<V>) {
        match world.get_entity_mut(self.entity) {
            Some(em) => {
                let mut em = em;
                em.remove_bundle_intersection(self.ids.as_slice());
            },
            None => {},
        }
    }
}

/// Adds or replaces a resource.
pub struct InsertResource<V> {
    pub id: ResourceId,
    pub resource: V,
}

impl<V> Command<V> for InsertResource<V> {
    open spec fn can_write(&self, w: WorldView<V>) -> bool {
        true
    }

    open spec fn written(&self, w: WorldView<V>) -> WorldView<V> {
        w.with_resources(w.resources.insert(self.id, self.resource))
    }

    fn write(self, world: &mut World<V>) {
        world.insert_resource(self.id, self.resource);
    }
}

/// Removes a resource.
pub struct RemoveResource {
    pub id: ResourceId,
}

impl<V> Command<V> for RemoveResource {
    open spec fn can_write(&self, w: WorldView<V>) -> bool {
        true
    }

    open spec fn written(&self, w: WorldView<V>) -> WorldView<V> {
        w.with_resources(w.resources.remove(self.id))
    }

    fn write(self, world: &mut World<V>) {
        world.remove_resource(self.id);
    }
}

/// Appends an alive child to the children of an alive parent.
pub struct PushChild {
    pub parent: Entity,
    pub child: Entity,
}

impl<V> Command<V> for PushChild {
    open spec fn can_write(&self, w: WorldView<V>) -> bool {
        w.alive(self.parent) && w.alive(self.child)
    }

    open spec fn written(&self, w: WorldView<V>) -> WorldView<V> {
        w.pushed_child(self.parent, self.child)
    }

    fn write(self, world: &mut World<V>) {
        world.entity_mut(self.parent).push_child(self.child);
    }
}

/// Appends alive children to the children of an alive parent.
pub struct PushChildren {
    pub parent: Entity,
    pub children: Vec<Entity>,
}

impl<V> Command<V> for PushChildren {
    open spec fn can_write(&self, w: WorldView<V>) -> bool {
        w.alive(self.parent) && w.all_alive(self.children@)
    }

    open spec fn written(&self, w: WorldView<V>) -> WorldView<V> {
        w.pushed_children(self.parent, self.children@)
    }

    fn write(self, world: &mut World<V>) {
        world.entity_mut(self.parent).push_children(self.children.as_slice());
    }
}

/// Inserts an alive child among the children of an alive parent.
pub struct InsertChild {
    pub parent: Entity,
    pub index: usize,
    pub child: Entity,
}

impl<V> Command<V> for InsertChild {
    open spec fn can_write(&self, w: WorldView<V>) -> bool {
        w.alive(self.parent) && w.alive(self.child) && w.can_splice(self.parent, self.index as int)
    }

    open spec fn written(&self, w: WorldView<V>) -> WorldView<V> {
        w.inserted_child(self.parent, self.index as int, self.child)
    }

    fn write(self, world: &mut World<V>) {
        world.entity_mut(self.parent).insert_child(self.index, self.child);
    }
}

/// Inserts alive children among the children of an alive parent.
pub struct InsertChildren {
    pub parent: Entity,
    pub children: Vec<Entity>,
    pub index: usize,
}

impl<V> Command<V> for InsertChildren {
    open spec fn can_write(&self, w: WorldView<V>) -> bool {
        w.alive(self.parent) && w.all_alive(self.children@) && w.can_splice(
            self.parent,
            self.index as int,
        )
    }

    open spec fn written(&self, w: WorldView<V>) -> WorldView<V> {
        w.inserted_children(self.parent, self.index as int, self.children@)
    }

    fn write(self, world: &mut World<V>) {
        world.entity_mut(self.parent).insert_children(self.index, self.children.as_slice());
    }
}

/// Removes a child from the children of an alive parent.
pub struct RemoveChild {
    pub parent: Entity,
    pub child: Entity,
}

impl<V> Command<V> for RemoveChild {
    open spec fn can_write(&self, w: WorldView<V>) -> bool {
        w.alive(self.parent) && w.can_remove_child(self.parent, self.child)
    }

    open spec fn written(&self, w: WorldView<V>) -> WorldView<V> {
        w.removed_child(self.parent, self.child)
    }

    fn write(self, world: &mut World<V>) {
        world.entity_mut(self.parent).remove_child(self.child);
    }
}

/// Removes children from the children of an alive parent.
pub struct RemoveChildren {
    pub parent: Entity,
    pub children: Vec<Entity>,
}

impl<V> Command<V> for RemoveChildren {
    open spec fn can_write(&self, w: WorldView<V>) -> bool {
        w.alive(self.parent) && w.can_remove_children(self.parent, self.children@)
    }

    open spec fn written(&self, w: WorldView<V>) -> WorldView<V> {
        w.removed_children(self.parent, self.children@)
    }

    fn write(self, world: &mut World<V>) {
        world.entity_mut(self.parent).remove_children(self.children.as_slice());
    }
}

/// Detaches an alive entity from its parent.
pub struct RemoveFromParent {
    pub child: Entity,
}

impl<V> Command<V> for RemoveFromParent {
    open spec fn can_write(&self, w: WorldView<V>) -> bool {
        w.alive(self.child) && w.can_remove_from_parent(self.child)
    }

    open spec fn written(&self, w: WorldView<V>) -> WorldView<V> {
        w.removed_from_parent(self.child)
    }

    fn write(self, world: &mut World<V>) {
        world.entity_mut(self.child).remove_from_parent();
    }
}

/// The commands that `Commands` and `EntityCommands` record.
pub enum WorldCommand<V> {
    GetOrSpawn(GetOrSpawn),
    InsertOrSpawnBatch(InsertOrSpawnBatch<V>),
    Despawn(Despawn),
    DespawnRecursive(DespawnRecursive),
    InsertBundle(InsertBundle<V>),
    Insert(Insert<V>),
    Remove(Remove),
    RemoveBundle(RemoveBundle),
    InsertResource(InsertResource<V>),
    RemoveResource(RemoveResource),
    PushChild(PushChild),
    PushChildren(PushChildren),
    InsertChild(InsertChild),
    InsertChildren(InsertChildren),
    RemoveChild(RemoveChild),
    RemoveChildren(RemoveChildren),
    RemoveFromParent(RemoveFromParent),
}

impl<V> Command<V> for WorldCommand<V> {
    open spec fn can_write(&self, w: WorldView<V>) -> bool {
        match self {
            WorldCommand::GetOrSpawn(c) => <GetOrSpawn as Command<V>>::can_write(c, w),
            WorldCommand::InsertOrSpawnBatch(c) => c.can_write(w),
            WorldCommand::Despawn(c) => <Despawn as Command<V>>::can_write(c, w),
            WorldCommand::DespawnRecursive(c) => <DespawnRecursive as Command<V>>::can_write(c, w),
            WorldCommand::InsertBundle(c) => c.can_write(w),
            WorldCommand::Insert(c) => c.can_write(w),
            WorldCommand::Remove(c) => <Remove as Command<V>>::can_write(c, w),
            WorldCommand::RemoveBundle(c) => <RemoveBundle as Command<V>>::can_write(c, w),
            WorldCommand::InsertResource(c) => c.can_write(w),
            WorldCommand::RemoveResource(c) => <RemoveResource as Command<V>>::can_write(c, w),
            WorldCommand::PushChild(c) => <PushChild as Command<V>>::can_write(c, w),
            WorldCommand::PushChildren(c) => <PushChildren as Command<V>>::can_write(c, w),
            WorldCommand::InsertChild(c) => <InsertChild as Command<V>>::can_write(c, w),
            WorldCommand::InsertChildren(c) => <InsertChildren as Command<V>>::can_write(c, w),
            WorldCommand::RemoveChild(c) => <RemoveChild as Command<V>>::can_write(c, w),
            WorldCommand::RemoveChildren(c) => <RemoveChildren as Command<V>>::can_write(c, w),
            WorldCommand::RemoveFromParent(c) => <RemoveFromParent as Command<V>>::can_write(c, w),
        }
    }

    open spec fn written(&self, w: WorldView<V>) -> WorldView<V> {
        match self {
            WorldCommand::GetOrSpawn(c) => <GetOrSpawn as Command<V>>::written(c, w),
            WorldCommand::InsertOrSpawnBatch(c) => c.written(w),
            WorldCommand::Despawn(c) => <Despawn as Command<V>>::written(c, w),
            WorldCommand::DespawnRecursive(c) => <DespawnRecursive as Command<V>>::written(c, w),
            WorldCommand::InsertBundle(c) => c.written(w),
            WorldCommand::Insert(c) => c.written(w),
            WorldCommand::Remove(c) => <Remove as Command<V>>::written(c, w),
            WorldCommand::RemoveBundle(c) => <RemoveBundle as Command<V>>::written(c, w),
            WorldCommand::InsertResource(c) => c.written(w),
            WorldCommand::RemoveResource(c) => <RemoveResource as Command<V>>::written(c, w),
            WorldCommand::PushChild(c) => <PushChild as Command<V>>::written(c, w),
            WorldCommand::PushChildren(c) => <PushChildren as Command<V>>::written(c, w),
            WorldCommand::InsertChild(c) => <InsertChild as Command<V>>::written(c, w),
            WorldCommand::InsertChildren(c) => <InsertChildren as Command<V>>::written(c, w),
            WorldCommand::RemoveChild(c) => <RemoveChild as Command<V>>::written(c, w),
            WorldCommand::RemoveChildren(c) => <RemoveChildren as Command<V>>::written(c, w),
            WorldCommand::RemoveFromParent(c) => <RemoveFromParent as Command<V>>::written(c, w),
        }
    }

    fn write(self, world: &mut World<V>) {
        match self {
            WorldCommand::GetOrSpawn(c) => c.write(world),
            WorldCommand::InsertOrSpawnBatch(c) => c.write(world),
            WorldCommand::Despawn(c) => c.write(world),
            WorldCommand::DespawnRecursive(c) => c.write(world),
            WorldCommand::InsertBundle(c) => c.write(world),
            WorldCommand::Insert(c) => c.write(world),
            WorldCommand::Remove(c) => c.write(world),
            WorldCommand::RemoveBundle(c) => c.write(world),
            WorldCommand::InsertResource(c) => c.write(world),
            WorldCommand::RemoveResource(c) => c.write(world),
            WorldCommand::PushChild(c) => c.write(world),
            WorldCommand::PushChildren(c) => c.write(world),
            WorldCommand::InsertChild(c) => c.write(world),
            WorldCommand::InsertChildren(c) => c.write(world),
            WorldCommand::RemoveChild(c) => c.write(world),
            WorldCommand::RemoveChildren(c) => c.write(world),
            WorldCommand::RemoveFromParent(c) => c.write(world),
        }
    }
}

/// Writing the commands of `cs` in order to a world in state `w` does not panic.
pub open spec fn all_writable<V, C: Command<V>>(cs: Seq<C>, w: WorldView<V>) -> bool
    decreases cs.len(),
{
    if cs.len() == 0 {
        true
    } else {
        cs[0].can_write(w) && all_writable(cs.drop_first(), cs[0].written(w))
    }
}

/// The state of a world in state `w` after the commands of `cs` are written in order.
pub open spec fn all_written<V, C: Command<V>>(cs: Seq<C>, w: WorldView<V>) -> WorldView<V>
    decreases cs.len(),
{
    if cs.len() == 0 {
        w
    } else {
        all_written(cs.drop_first(), cs[0].written(w))
    }
}

/// Applying a queue of one command writes just that command.
proof fn lemma_single_command<V>(c: WorldCommand<V>, w: WorldView<V>)
    ensures
        all_written(seq![c], w) == c.written(w),
        all_writable(seq![c], w) == c.can_write(w),
{
    let cs = seq![c];
    assert(cs[0] == c);
    assert(cs.drop_first() =~= Seq::<WorldCommand<V>>::empty());
    assert(all_written(cs.drop_first(), c.written(w)) == c.written(w));
    assert(all_writable(cs.drop_first(), c.written(w)));
}

/// A queued bundle insert gives the entity the components it had and those of the bundle,
/// each component of the bundle with the value of its last pair and the others as they
/// were, and leaves every other entity as it was.
pub proof fn lemma_queued_insert_bundle<V>(w: WorldView<V>, entity: Entity, bundle: Vec<(ComponentId, V)>)
    requires
        w.alive(entity),
        w.data.len() == w.metas.len(),
    ensures
        all_writable(seq![WorldCommand::InsertBundle(InsertBundle { entity, bundle })], w),
        ({
            let after = all_written(seq![WorldCommand::InsertBundle(InsertBundle { entity, bundle })], w);
            let b = bundle@;
            &&& forall|k: ComponentId| #[trigger] after.components_of(entity).contains_key(k)
                <==> w.components_of(entity).contains_key(k) || exists|i: int| 0 <= i < b.len() && b[i].0 == k
            &&& forall|i: int| 0 <= i < b.len() && (forall|j: int| i < j < b.len() ==> b[j].0 != b[i].0)
                ==> #[trigger] after.components_of(entity)[b[i].0] == b[i].1
            &&& forall|k: ComponentId| (forall|i: int| 0 <= i < b.len() ==> b[i].0 != k) && w.components_of(entity).contains_key(k)
                ==> #[trigger] after.components_of(entity)[k] == w.components_of(entity)[k]
            &&& forall|x: Entity| x.id != entity.id && x.id < w.data.len() ==> #[trigger] after.components_of(x)
                == w.components_of(x)
        }),
{
    lemma_single_command(WorldCommand::InsertBundle(InsertBundle { entity, bundle }), w);
    crate::ecs::entity_ref::lemma_insert_bundle_components(w, entity, bundle@);
}

/// A queued removal of component `id` from an alive entity drops that component, keeps
/// the others, and logs the removal once when the entity had it; a removal queued for an
/// entity that is not alive changes nothing.
pub proof fn lemma_queued_remove<V>(w: WorldView<V>, entity: Entity, id: ComponentId)
    requires
        w.data.len() == w.metas.len(),
    ensures
        all_writable(seq![WorldCommand::<V>::Remove(Remove { entity, id })], w),
        !w.alive(entity) ==> all_written(seq![WorldCommand::<V>::Remove(Remove { entity, id })], w) == w,
        w.alive(entity) ==> {
            let after = all_written(seq![WorldCommand::<V>::Remove(Remove { entity, id })], w);
            &&& after.components_of(entity) == w.components_of(entity).remove(id)
            &&& removed_log(after.removed, id) == if w.components_of(entity).contains_key(id) {
                removed_log(w.removed, id).push(entity)
            } else {
                removed_log(w.removed, id)
            }
        },
{
    lemma_single_command(WorldCommand::<V>::Remove(Remove { entity, id }), w);
    if w.alive(entity) && !w.components_of(entity).contains_key(id) {
        assert(w.components_of(entity).remove(id) =~= w.components_of(entity));
    }
}

/// A queued resource removal leaves the world without that resource, all else as it was.
pub proof fn lemma_queued_remove_resource<V>(w: WorldView<V>, id: ResourceId)
    ensures
        all_writable(seq![WorldCommand::<V>::RemoveResource(RemoveResource { id })], w),
        all_written(seq![WorldCommand::<V>::RemoveResource(RemoveResource { id })], w) == w.with_resources(
            w.resources.remove(id),
        ),
        !all_written(seq![WorldCommand::<V>::RemoveResource(RemoveResource { id })], w).resources.contains_key(id),
{
    lemma_single_command(WorldCommand::<V>::RemoveResource(RemoveResource { id }), w);
}

/// A queued insert sets the component whether or not the entity had it: applying a queue
/// holding only `Insert { entity, id, component }` to a world where `entity` is alive
/// never panics, leaves `entity` with `component` under `id` and its other components as
/// they were, registers `id`, and leaves every other entity as it was.
pub proof fn lemma_queued_insert_replaces<V>(w: WorldView<V>, entity: Entity, id: ComponentId, component: V)
    requires
        w.alive(entity),
        w.data.len() == w.metas.len(),
    ensures
        all_writable(seq![WorldCommand::Insert(Insert { entity, id, component })], w),
        all_written(seq![WorldCommand::Insert(Insert { entity, id, component })], w).components_of(entity)
            == w.components_of(entity).insert(id, component),
        all_written(seq![WorldCommand::Insert(Insert { entity, id, component })], w).components_of(entity)[id]
            == component,
        all_written(seq![WorldCommand::Insert(Insert { entity, id, component })], w).registered.contains(id),
        forall|x: Entity| x.id != entity.id && x.id < w.data.len() ==> #[trigger] all_written(
            seq![WorldCommand::Insert(Insert { entity, id, component })],
            w,
        ).components_of(x) == w.components_of(x),
        all_written(seq![WorldCommand::Insert(Insert { entity, id, component })], w).metas == w.metas,
{
    let c = WorldCommand::Insert(Insert { entity, id, component });
    let cs = seq![c];
    assert(cs[0] == c);
    assert(cs.drop_first() =~= Seq::<WorldCommand<V>>::empty());
    assert(all_written(cs.drop_first(), c.written(w)) == c.written(w));
    assert(all_writable(cs.drop_first(), c.written(w)));
}

/// A resource queued with `Commands::insert_resource` is written as
/// `World::insert_resource` writes it: applying the queue holding only that command
/// never panics and leaves the world with `resource` under `id`, all else as it was.
pub proof fn lemma_queued_insert_resource<V>(w: WorldView<V>, id: ResourceId, resource: V)
    ensures
        all_writable(seq![WorldCommand::InsertResource(InsertResource { id, resource })], w),
        all_written(seq![WorldCommand::InsertResource(InsertResource { id, resource })], w) == w.with_resources(
            w.resources.insert(id, resource),
        ),
{
    let c = WorldCommand::InsertResource(InsertResource { id, resource });
    let cs = seq![c];
    assert(cs[0] == c);
    assert(cs.drop_first() =~= Seq::<WorldCommand<V>>::empty());
    assert(all_written(cs.drop_first(), c.written(w)) == c.written(w));
    assert(all_writable(cs.drop_first(), c.written(w)));
}

/// Writing the commands of `a` and then those of `b` is writing `a + b` in order, and it
/// does not panic exactly when neither part does.
pub proof fn lemma_all_written_append<V, C: Command<V>>(a: Seq<C>, b: Seq<C>, w: WorldView<V>)
    ensures
        all_written(a + b, w) == all_written(b, all_written(a, w)),
        all_writable(a + b, w) == (all_writable(a, w) && all_writable(b, all_written(a, w))),
    decreases a.len(),
{
    if a.len() > 0 {
        assert((a + b).drop_first() =~= a.drop_first() + b);
        assert((a + b)[0] == a[0]);
        lemma_all_written_append(a.drop_first(), b, a[0].written(w));
    } else {
        assert(a + b =~= b);
    }
}

/// Commands waiting to be written to a world, oldest first.
pub struct CommandQueue<C> {
    commands: Vec<C>,
}

impl<C> View for CommandQueue<C> {
    type V = Seq<C>;

    closed spec fn view(&self) -> Seq<C> {
        self.commands@
    }
}

impl<C> Default for CommandQueue<C> {
    fn default() -> (r: CommandQueue<C>)
        ensures
            r@ == Seq::<C>::empty(),
    {
        CommandQueue { commands: Vec::new() }
    }
}

impl<C> CommandQueue<C> {
    pub fn new() -> (r: CommandQueue<C>)
        ensures
            r@ == Seq::<C>::empty(),
    {
        CommandQueue { commands: Vec::new() }
    }

    pub fn len(&self) -> (r: usize)
        ensures
            r == self@.len(),
    {
        self.commands.len()
    }

    pub fn push(&mut self, command: C)
        ensures
            final(self)@ == old(self)@.push(command),
    {
        self.commands.push(command);
    }

    /// Makes the world's reserved entities alive, then writes the queued commands in order
    /// and empties the queue.
    pub fn apply<V>(&mut self, world: &mut World<V>)
        where
            C: Command<V>,
        requires
            old(world).wf(),
            all_writable(old(self)@, old(world)@.flushed()),
        ensures
            final(world).wf(),
            final(world)@ == all_written(old(self)@, old(world)@.flushed()),
            final(self)@ == Seq::<C>::empty(),
    {
        world.flush();
        let mut cmds: Vec<C> = Vec::new();
        std::mem::swap(&mut cmds, &mut self.commands);
        let ghost cs = cmds@;
        let ghost w0 = world@;
        proof {
            assert(cs.skip(0) =~= cs);
        }
        for c in it: cmds
            invariant
                it.seq() == cs,
                world.wf(),
                self.commands@ == Seq::<C>::empty(),
                all_writable(cs.skip(it.index() as int), world@),
                all_written(cs, w0) == all_written(cs.skip(it.index() as int), world@),
        {
            proof {
                let i = it.index() as int;
                assert(cs.skip(i)[0] == c);
                assert(cs.skip(i).drop_first() =~= cs.skip(i + 1));
            }
            c.write(world);
        }
        proof {
            assert(cs.skip(cs.len() as int) =~= Seq::<C>::empty());
        }
    }
}

/// Records commands into a queue, reserving the entities it spawns in a world.
pub struct Commands<'w, 's, V> {
    pub queue: &'s mut CommandQueue<WorldCommand<V>>,
    pub world: &'w mut World<V>,
}

impl<'w, 's, V> Commands<'w, 's, V> {
    pub fn new(queue: &'s mut CommandQueue<WorldCommand<V>>, world: &'w mut World<V>) -> (r: Commands<'w, 's, V>)
        ensures
            *r.queue == *old(queue),
            *r.world == *old(world),
            *final(r.queue) == *final(queue),
            *final(r.world) == *final(world),
    {
        Commands { queue, world }
    }

    /// Queues `command`.
    pub fn add(&mut self, command: WorldCommand<V>)
        ensures
            final(self).queue@ == old(self).queue@.push(command),
            *final(self).world == *old(self).world,
            *final(final(self).queue) == *final(old(self).queue),
            *final(final(self).world) == *final(old(self).world),
    {
        self.queue.push(command);
    }

    /// Reserves a new entity, alive once the queue is applied, and records commands for it.
    pub fn spawn(&mut self) -> (r: EntityCommands<'_, 'w, 's, V>)
        requires
            old(self).world.wf(),
            old(self).world@.can_alloc(),
        ensures
            r.entity == old(self).world@.next_entity(),
            r.commands.world.wf(),
            r.commands.world@ == old(self).world@.allocated(SlotState::Reserved),
            *r.commands.queue == *old(self).queue,
            *final(r.commands) == *final(self),
            *final(r.commands.queue) == *final(old(self).queue),
            *final(r.commands.world) == *final(old(self).world),
    {
        let entity = self.world.reserve_entity();
        EntityCommands { entity, commands: self }
    }

    /// Queues fetching or spawning `entity` in its own slot, and records commands for it.
    pub fn get_or_spawn(&mut self, entity: Entity) -> (r: EntityCommands<'_, 'w, 's, V>)
        ensures
            r.entity == entity,
            r.commands.queue@ == old(self).queue@.push(WorldCommand::GetOrSpawn(GetOrSpawn { entity })),
            *r.commands.world == *old(self).world,
            *final(r.commands) == *final(self),
            *final(r.commands.queue) == *final(old(self).queue),
            *final(r.commands.world) == *final(old(self).world),
    {
        self.add(WorldCommand::GetOrSpawn(GetOrSpawn { entity }));
        EntityCommands { entity, commands: self }
    }

    /// Reserves a new entity and queues adding `bundle` to it.
    pub fn spawn_bundle(&mut self, bundle: Vec<(ComponentId, V)>) -> (r: EntityCommands<'_, 'w, 's, V>)
        requires
            old(self).world.wf(),
            old(self).world@.can_alloc(),
        ensures
            r.entity == old(self).world@.next_entity(),
            r.commands.world.wf(),
            r.commands.world@ == old(self).world@.allocated(SlotState::Reserved),
            r.commands.queue@ == old(self).queue@.push(
                WorldCommand::InsertBundle(InsertBundle { entity: r.entity, bundle }),
            ),
            *final(r.commands) == *final(self),
            *final(r.commands.queue) == *final(old(self).queue),
            *final(r.commands.world) == *final(old(self).world),
    {
        let entity = self.world.reserve_entity();
        self.add(WorldCommand::InsertBundle(InsertBundle { entity, bundle }));
        EntityCommands { entity, commands: self }
    }

    /// Queues fetching or spawning each entity of `bundles` and adding its bundle.
    pub fn insert_or_spawn_batch(&mut self, bundles: Vec<(Entity, Vec<(ComponentId, V)>)>)
        ensures
            final(self).queue@ == old(self).queue@.push(
                WorldCommand::InsertOrSpawnBatch(InsertOrSpawnBatch { bundles }),
            ),
            *final(self).world == *old(self).world,
            *final(final(self).queue) == *final(old(self).queue),
            *final(final(self).world) == *final(old(self).world),
    {
        self.add(WorldCommand::InsertOrSpawnBatch(InsertOrSpawnBatch { bundles }));
    }

    /// Records commands for an existing entity.
    pub fn entity(&mut self, entity: Entity) -> (r: EntityCommands<'_, 'w, 's, V>)
        ensures
            r.entity == entity,
            *r.commands == *old(self),
            *final(r.commands) == *final(self),
            *final(r.commands.queue) == *final(old(self).queue),
            *final(r.commands.world) == *final(old(self).world),
    {
        EntityCommands { entity, commands: self }
    }

    /// Queues adding the default value of resource `id`.
    pub fn init_resource(&mut self, id: ResourceId)
        where
            V: Default,
        ensures
            final(self).queue@.len() == old(self).queue@.len() + 1,
            final(self).queue@.drop_last() == old(self).queue@,
            final(self).queue@.last() matches WorldCommand::InsertResource(c) && c.id == id && call_ensures(
                V::default,
                (),
                c.resource,
            ),
            *final(self).world == *old(self).world,
            *final(final(self).queue) == *final(old(self).queue),
            *final(final(self).world) == *final(old(self).world),
    {
        let resource = V::default();
        self.add(WorldCommand::InsertResource(InsertResource { id, resource }));
        proof {
            assert(final(self).queue@.drop_last() =~= old(self).queue@);
        }
    }

    /// Queues adding or replacing resource `id`.
    pub fn insert_resource(&mut self, id: ResourceId, resource: V)
        ensures
            final(self).queue@ == old(self).queue@.push(
                WorldCommand::InsertResource(InsertResource { id, resource }),
            ),
            *final(self).world == *old(self).world,
            *final(final(self).queue) == *final(old(self).queue),
            *final(final(self).world) == *final(old(self).world),
    {
        self.add(WorldCommand::InsertResource(InsertResource { id, resource }));
    }

    /// Queues removing resource `id`.
    pub fn remove_resource(&mut self, id: ResourceId)
        ensures
            final(self).queue@ == old(self).queue@.push(
                WorldCommand::RemoveResource(RemoveResource { id }),
            ),
            *final(self).world == *old(self).world,
            *final(final(self).queue) == *final(old(self).queue),
            *final(final(self).world) == *final(old(self).world),
    {
        self.add(WorldCommand::RemoveResource(RemoveResource { id }));
    }
}

/// Records commands for one entity.
pub struct EntityCommands<'a, 'w, 's, V> {
    pub entity: Entity,
    pub commands: &'a mut Commands<'w, 's, V>,
}


impl<'a, 'w, 's, V> EntityCommands<'a, 'w, 's, V> {
    pub fn id(&self) -> (r: Entity)
        ensures
            r == self.entity,
    {
        self.entity
    }

    /// The commands this entity's commands are recorded into.
    pub fn commands(&mut self) -> (r: &mut Commands<'w, 's, V>)
        ensures
            *r == *old(self).commands,
            *final(self).commands == *final(r),
            *final(final(self).commands) == *final(old(self).commands),
            final(self).entity == old(self).entity,
    {
        self.commands
    }

    /// Lets `spawn_children` spawn children through a builder, then queues appending them
    /// to the entity's children: the builder starts on these commands with no children,
    /// and the command queued last appends the children it holds when `spawn_children`
    /// returns, in the order they were spawned, after the commands `spawn_children`
    /// queued. `spawn_children` leaves the builder on the commands it was given.
    pub fn with_children<F>(&mut self, spawn_children: F) -> (r: &mut Self)
        where
            F: for<'b> FnOnce(&mut ChildBuilder<'b, 'w, 's, V>),
        requires
            forall|b: &mut ChildBuilder<'_, 'w, 's, V>|
                *b.commands == *old(self).commands && b.push_children.parent == old(self).entity
                    && b.push_children.children@.len() == 0 ==> #[trigger] spawn_children.requires((b,)),
            forall|b: &mut ChildBuilder<'_, 'w, 's, V>, u: ()| #[trigger] spawn_children.ensures((b,), u)
                ==> *final(final(b).commands) == *final(b.commands),
        ensures
            r.entity == old(self).entity,
            exists|b: &mut ChildBuilder<'_, 'w, 's, V>| {
                &&& *b.commands == *old(self).commands
                &&& b.push_children.parent == old(self).entity
                &&& b.push_children.children@.len() == 0
                &&& #[trigger] spawn_children.ensures((b,), ())
                &&& r.commands.queue@ == final(b).commands.queue@.push(
                    WorldCommand::PushChildren(final(b).push_children),
                )
                &&& *r.commands.world == *final(b).commands.world
            },
            *final(r) == *final(self),
    {
        let parent = self.entity;
        let mut builder = ChildBuilder {
            commands: self.commands(),
            push_children: PushChildren { children: Vec::new(), parent },
        };
        spawn_children(&mut builder);
        let push_children = builder.push_children;
        self.commands().add(WorldCommand::PushChildren(push_children));
        self
    }

    /// Queues adding `bundle` to the entity.
    pub fn insert_bundle(&mut self, bundle: Vec<(ComponentId, V)>) -> (r: &mut Self)
        ensures
            r.entity == old(self).entity,
            r.commands.queue@ == old(self).commands.queue@.push(WorldCommand::InsertBundle(InsertBundle { entity: old(self).entity, bundle })),
            *r.commands.world == *old(self).commands.world,
            *final(r) == *final(self),
            *final(r.commands) == *final(old(self).commands),
            *final(r.commands.queue) == *final(old(self).commands.queue),
            *final(r.commands.world) == *final(old(self).commands.world),
    {
        let entity = self.entity;
        self.commands.add(WorldCommand::InsertBundle(InsertBundle { entity: entity, bundle }));
        self
    }

    /// Queues adding or replacing component `id` of the entity.
    pub fn insert(&mut self, id: ComponentId, component: V) -> (r: &mut Self)
        ensures
            r.entity == old(self).entity,
            r.commands.queue@ == old(self).commands.queue@.push(WorldCommand::Insert(Insert { entity: old(self).entity, id, component })),
            *r.commands.world == *old(self).commands.world,
            *final(r) == *final(self),
            *final(r.commands) == *final(old(self).commands),
            *final(r.commands.queue) == *final(old(self).commands.queue),
            *final(r.commands.world) == *final(old(self).commands.world),
    {
        let entity = self.entity;
        self.commands.add(WorldCommand::Insert(Insert { entity: entity, id, component }));
        self
    }

    /// Queues removing the components `ids` that the entity has.
    pub fn remove_bundle(&mut self, ids: Vec<ComponentId>) -> (r: &mut Self)
        ensures
            r.entity == old(self).entity,
            r.commands.queue@ == old(self).commands.queue@.push(WorldCommand::RemoveBundle(RemoveBundle { entity: old(self).entity, ids })),
            *r.commands.world == *old(self).commands.world,
            *final(r) == *final(self),
            *final(r.commands) == *final(old(self).commands),
            *final(r.commands.queue) == *final(old(self).commands.queue),
            *final(r.commands.world) == *final(old(self).commands.world),
    {
        let entity = self.entity;
        self.commands.add(WorldCommand::RemoveBundle(RemoveBundle { entity: entity, ids }));
        self
    }

    /// Queues removing component `id` of the entity.
    pub fn remove(&mut self, id: ComponentId) -> (r: &mut Self)
        ensures
            r.entity == old(self).entity,
            r.commands.queue@ == old(self).commands.queue@.push(WorldCommand::Remove(Remove { entity: old(self).entity, id })),
            *r.commands.world == *old(self).commands.world,
            *final(r) == *final(self),
            *final(r.commands) == *final(old(self).commands),
            *final(r.commands.queue) == *final(old(self).commands.queue),
            *final(r.commands.world) == *final(old(self).commands.world),
    {
        let entity = self.entity;
        self.commands.add(WorldCommand::Remove(Remove { entity: entity, id }));
        self
    }

    /// Queues despawning the entity.
    pub fn despawn(&mut self)
        ensures
            final(self).entity == old(self).entity,
            final(self).commands.queue@ == old(self).commands.queue@.push(WorldCommand::Despawn(Despawn { entity: old(self).entity })),
            *final(self).commands.world == *old(self).commands.world,
            *final(final(self).commands) == *final(old(self).commands),
            *final(final(self).commands.queue) == *final(old(self).commands.queue),
            *final(final(self).commands.world) == *final(old(self).commands.world),
    {
        let entity = self.entity;
        self.commands.add(WorldCommand::Despawn(Despawn { entity: entity }));
    }

    /// Queues despawning the entity with everything below it.
    pub fn despawn_recursive(&mut self)
        ensures
            final(self).entity == old(self).entity,
            final(self).commands.queue@ == old(self).commands.queue@.push(WorldCommand::DespawnRecursive(DespawnRecursive { entity: old(self).entity })),
            *final(self).commands.world == *old(self).commands.world,
            *final(final(self).commands) == *final(old(self).commands),
            *final(final(self).commands.queue) == *final(old(self).commands.queue),
            *final(final(self).commands.world) == *final(old(self).commands.world),
    {
        let entity = self.entity;
        self.commands.add(WorldCommand::DespawnRecursive(DespawnRecursive { entity: entity }));
    }

    /// Queues appending `child` to the entity's children.
    pub fn push_child(&mut self, child: Entity) -> (r: &mut Self)
        ensures
            r.entity == old(self).entity,
            r.commands.queue@ == old(self).commands.queue@.push(WorldCommand::PushChild(PushChild { parent: old(self).entity, child })),
            *r.commands.world == *old(self).commands.world,
            *final(r) == *final(self),
            *final(r.commands) == *final(old(self).commands),
            *final(r.commands.queue) == *final(old(self).commands.queue),
            *final(r.commands.world) == *final(old(self).commands.world),
    {
        let entity = self.entity;
        self.commands.add(WorldCommand::PushChild(PushChild { parent: entity, child }));
        self
    }

    /// Queues appending `children` to the entity's children.
    pub fn push_children(&mut self, children: Vec<Entity>) -> (r: &mut Self)
        ensures
            r.entity == old(self).entity,
            r.commands.queue@ == old(self).commands.queue@.push(WorldCommand::PushChildren(PushChildren { parent: old(self).entity, children })),
            *r.commands.world == *old(self).commands.world,
            *final(r) == *final(self),
            *final(r.commands) == *final(old(self).commands),
            *final(r.commands.queue) == *final(old(self).commands.queue),
            *final(r.commands.world) == *final(old(self).commands.world),
    {
        let entity = self.entity;
        self.commands.add(WorldCommand::PushChildren(PushChildren { parent: entity, children }));
        self
    }

    /// Queues inserting `child` at `index` among the entity's children.
    pub fn insert_child(&mut self, index: usize, child: Entity) -> (r: &mut Self)
        ensures
            r.entity == old(self).entity,
            r.commands.queue@ == old(self).commands.queue@.push(WorldCommand::InsertChild(InsertChild { parent: old(self).entity, index, child })),
            *r.commands.world == *old(self).commands.world,
            *final(r) == *final(self),
            *final(r.commands) == *final(old(self).commands),
            *final(r.commands.queue) == *final(old(self).commands.queue),
            *final(r.commands.world) == *final(old(self).commands.world),
    {
        let entity = self.entity;
        self.commands.add(WorldCommand::InsertChild(InsertChild { parent: entity, index, child }));
        self
    }

    /// Queues inserting `children` at `index` among the entity's children.
    pub fn insert_children(&mut self, index: usize, children: Vec<Entity>) -> (r: &mut Self)
        ensures
            r.entity == old(self).entity,
            r.commands.queue@ == old(self).commands.queue@.push(WorldCommand::InsertChildren(InsertChildren { parent: old(self).entity, children, index })),
            *r.commands.world == *old(self).commands.world,
            *final(r) == *final(self),
            *final(r.commands) == *final(old(self).commands),
            *final(r.commands.queue) == *final(old(self).commands.queue),
            *final(r.commands.world) == *final(old(self).commands.world),
    {
        let entity = self.entity;
        self.commands.add(WorldCommand::InsertChildren(InsertChildren { parent: entity, children, index }));
        self
    }

    /// Queues removing `child` from the entity's children.
    pub fn remove_child(&mut self, child: Entity) -> (r: &mut Self)
        ensures
            r.entity == old(self).entity,
            r.commands.queue@ == old(self).commands.queue@.push(WorldCommand::RemoveChild(RemoveChild { parent: old(self).entity, child })),
            *r.commands.world == *old(self).commands.world,
            *final(r) == *final(self),
            *final(r.commands) == *final(old(self).commands),
            *final(r.commands.queue) == *final(old(self).commands.queue),
            *final(r.commands.world) == *final(old(self).commands.world),
    {
        let entity = self.entity;
        self.commands.add(WorldCommand::RemoveChild(RemoveChild { parent: entity, child }));
        self
    }

    /// Queues removing `children` from the entity's children.
    pub fn remove_children(&mut self, children: Vec<Entity>) -> (r: &mut Self)
        ensures
            r.entity == old(self).entity,
            r.commands.queue@ == old(self).commands.queue@.push(WorldCommand::RemoveChildren(RemoveChildren { parent: old(self).entity, children })),
            *r.commands.world == *old(self).commands.world,
            *final(r) == *final(self),
            *final(r.commands) == *final(old(self).commands),
            *final(r.commands.queue) == *final(old(self).commands.queue),
            *final(r.commands.world) == *final(old(self).commands.world),
    {
        let entity = self.entity;
        self.commands.add(WorldCommand::RemoveChildren(RemoveChildren { parent: entity, children }));
        self
    }

    /// Queues detaching `child` from its parent.
    pub fn remove_from_parent(&mut self, child: Entity) -> (r: &mut Self)
        ensures
            r.entity == old(self).entity,
            r.commands.queue@ == old(self).commands.queue@.push(WorldCommand::RemoveFromParent(RemoveFromParent { child })),
            *r.commands.world == *old(self).commands.world,
            *final(r) == *final(self),
            *final(r.commands) == *final(old(self).commands),
            *final(r.commands.queue) == *final(old(self).commands.queue),
            *final(r.commands.world) == *final(old(self).commands.world),
    {
        let entity = self.entity;
        self.commands.add(WorldCommand::RemoveFromParent(RemoveFromParent { child }));
        self
    }
}

/// Spawns children for a parent and remembers them, so that they can be appended to the
/// parent's children in one command.
pub struct ChildBuilder<'a, 'w, 's, V> {
    pub commands: &'a mut Commands<'w, 's, V>,
    pub push_children: PushChildren,
}

impl<'a, 'w, 's, V> ChildBuilder<'a, 'w, 's, V> {
    /// Reserves a child entity and queues adding `bundle` to it.
    pub fn spawn_bundle(&mut self, bundle: Vec<(ComponentId, V)>) -> (r: EntityCommands<'_, 'w, 's, V>)
        requires
            old(self).commands.world.wf(),
            old(self).commands.world@.can_alloc(),
        ensures
            r.entity == old(self).commands.world@.next_entity(),
            r.commands.world.wf(),
            r.commands.world@ == old(self).commands.world@.allocated(SlotState::Reserved),
            r.commands.queue@ == old(self).commands.queue@.push(
                WorldCommand::InsertBundle(InsertBundle { entity: r.entity, bundle }),
            ),
            final(self).push_children.parent == old(self).push_children.parent,
            final(self).push_children.children@ == old(self).push_children.children@.push(r.entity),
            *final(self).commands == *final(r.commands),
            *final(final(self).commands) == *final(old(self).commands),
            *final(r.commands.queue) == *final(old(self).commands.queue),
            *final(r.commands.world) == *final(old(self).commands.world),
    {
        let e = self.commands.spawn_bundle(bundle);
        self.push_children.children.push(e.entity);
        e
    }

    /// Reserves a child entity.
    pub fn spawn(&mut self) -> (r: EntityCommands<'_, 'w, 's, V>)
        requires
            old(self).commands.world.wf(),
            old(self).commands.world@.can_alloc(),
        ensures
            r.entity == old(self).commands.world@.next_entity(),
            r.commands.world.wf(),
            r.commands.world@ == old(self).commands.world@.allocated(SlotState::Reserved),
            *r.commands.queue == *old(self).commands.queue,
            final(self).push_children.parent == old(self).push_children.parent,
            final(self).push_children.children@ == old(self).push_children.children@.push(r.entity),
            *final(self).commands == *final(r.commands),
            *final(final(self).commands) == *final(old(self).commands),
            *final(r.commands.queue) == *final(old(self).commands.queue),
            *final(r.commands.world) == *final(old(self).commands.world),
    {
        let e = self.commands.spawn();
        self.push_children.children.push(e.entity);
        e
    }

    pub fn parent_entity(&self) -> (r: Entity)
        ensures
            r == self.push_children.parent,
    {
        self.push_children.parent
    }

    /// Queues `command`.
    pub fn add_command(&mut self, command: WorldCommand<V>) -> (r: &mut Self)
        ensures
            r.commands.queue@ == old(self).commands.queue@.push(command),
            *r.commands.world == *old(self).commands.world,
            r.push_children == old(self).push_children,
            *final(r) == *final(self),
            *final(r.commands) == *final(old(self).commands),
            *final(r.commands.queue) == *final(old(self).commands.queue),
            *final(r.commands.world) == *final(old(self).commands.world),
    {
        self.commands.add(command);
        self
    }
}

} // verus!
