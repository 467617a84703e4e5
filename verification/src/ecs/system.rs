//! What systems declare they access, and the parameter states that register that access.
use std::collections::HashSet;
use vstd::prelude::*;
use vstd::std_specs::iter::IteratorSpec;

use crate::ecs::entity::{ComponentId, Entity, ResourceId};
use crate::ecs::world::{removed_log, World};

verus! {

broadcast use vstd::std_specs::hash::group_hash_axioms;

/// The ids a system reads and the ids it writes; a write counts as a read too.
pub struct Access {
    reads_and_writes: HashSet<u32>,
    writes: HashSet<u32>,
}

/// The abstract state of an access record.
pub struct AccessView {
    pub reads: Set<u32>,
    pub writes: Set<u32>,
}

impl View for Access {
    type V = AccessView;

    closed spec fn view(&self) -> AccessView {
        AccessView { reads: self.reads_and_writes@, writes: self.writes@ }
    }
}

/// Two access records can be granted at once: neither writes what the other touches.
pub open spec fn compatible(a: AccessView, b: AccessView) -> bool {
    a.writes.disjoint(b.reads) && b.writes.disjoint(a.reads)
}

/// Compatibility is symmetric, and it is exactly the absence of a conflict: two records
/// conflict when one writes an id that the other reads or writes; two reads of the same id
/// do not conflict.
pub proof fn lemma_compatible_iff_no_conflict(a: AccessView, b: AccessView)
    ensures
        compatible(a, b) == compatible(b, a),
        compatible(a, b) <==> forall|k: u32|
            #![trigger a.writes.contains(k)]
            #![trigger b.writes.contains(k)]
            !(a.writes.contains(k) && b.reads.contains(k)) && !(b.writes.contains(k) && a.reads.contains(k)),
{
    if compatible(a, b) {
        assert forall|k: u32|
            #![trigger a.writes.contains(k)]
            #![trigger b.writes.contains(k)]
            !(a.writes.contains(k) && b.reads.contains(k)) && !(b.writes.contains(k) && a.reads.contains(k)) by {
            assert(!(a.writes.contains(k) && b.reads.contains(k)));
            assert(!(b.writes.contains(k) && a.reads.contains(k)));
        }
    } else {
        if !a.writes.disjoint(b.reads) {
            let k = choose|k: u32| a.writes.contains(k) && b.reads.contains(k);
            assert(a.writes.contains(k) && b.reads.contains(k));
        } else {
            let k = choose|k: u32| b.writes.contains(k) && a.reads.contains(k);
            assert(b.writes.contains(k) && a.reads.contains(k));
        }
    }
}

impl Default for Access {
    fn default() -> (r: Access)
        ensures
            r@.reads == Set::<u32>::empty(),
            r@.writes == Set::<u32>::empty(),
    {
        Access { reads_and_writes: HashSet::new(), writes: HashSet::new() }
    }
}

impl Access {
    pub closed spec fn wf(&self) -> bool {
        self.writes@.subset_of(self.reads_and_writes@)
    }

    pub fn new() -> (r: Access)
        ensures
            r.wf(),
            r@.reads == Set::<u32>::empty(),
            r@.writes == Set::<u32>::empty(),
    {
        Access { reads_and_writes: HashSet::new(), writes: HashSet::new() }
    }

    pub fn add_read(&mut self, id: u32)
        ensures
            final(self)@.reads == old(self)@.reads.insert(id),
            final(self)@.writes == old(self)@.writes,
            old(self).wf() ==> final(self).wf(),
    {
        self.reads_and_writes.insert(id);
    }

    pub fn add_write(&mut self, id: u32)
        ensures
            final(self)@.reads == old(self)@.reads.insert(id),
            final(self)@.writes == old(self)@.writes.insert(id),
            old(self).wf() ==> final(self).wf(),
    {
        self.reads_and_writes.insert(id);
        self.writes.insert(id);
    }

    pub fn has_read(&self, id: u32) -> (r: bool)
        ensures
            r == self@.reads.contains(id),
    {
        self.reads_and_writes.contains(&id)
    }

    pub fn has_write(&self, id: u32) -> (r: bool)
        ensures
            r == self@.writes.contains(id),
    {
        self.writes.contains(&id)
    }

    /// Adds the reads and writes of `other` to this record.
    pub fn extend(&mut self, other: &Access)
        ensures
            final(self)@.reads == old(self)@.reads + other@.reads,
            final(self)@.writes == old(self)@.writes + other@.writes,
            old(self).wf() && other.wf() ==> final(self).wf(),
    {
        Self::insert_all(&mut self.reads_and_writes, &other.reads_and_writes);
        Self::insert_all(&mut self.writes, &other.writes);
    }

    fn insert_all(into: &mut HashSet<u32>, from: &HashSet<u32>)
        ensures
            final(into)@ == old(into)@ + from@,
    {
        let ghost ks = from.iter().remaining();
        let ghost start = into@;
        for id in it: from.iter()
            invariant
                it.seq() == ks,
                into@ == start + ks.take(it.index() as int).map_values(|x: &u32| *x).to_set(),
        {
            proof {
                let before = ks.take(it.index() as int).map_values(|x: &u32| *x);
                let after = ks.take(it.index() + 1).map_values(|x: &u32| *x);
                assert(after == before.push(*id));
                before.lemma_push_to_set_commute(*id);
            }
            into.insert(*id);
            proof {
                let after = ks.take(it.index() + 1).map_values(|x: &u32| *x);
                assert(into@ =~= start + after.to_set());
            }
        }
        proof {
            assert(ks.take(ks.len() as int) == ks);
            assert(ks.map_values(|x: &u32| *x) == ks.unref());
            assert(ks.unref().to_set() == from@);
            assert(into@ =~= start + from@);
        }
    }

    /// Whether neither record writes what the other reads or writes.
    pub fn is_compatible(&self, other: &Access) -> (r: bool)
        ensures
            r == compatible(self@, other@),
    {
        let a = self.writes_in(&other.reads_and_writes);
        let b = other.writes_in(&self.reads_and_writes);
        !a && !b
    }

    /// Whether some id this record writes is in `set`.
    fn writes_in(&self, set: &HashSet<u32>) -> (r: bool)
        ensures
            r == !self@.writes.disjoint(set@),
    {
        let mut found = false;
        let ws = &self.writes;
        let ghost ks = ws.iter().remaining();
        for id in it: ws.iter()
            invariant
                it.seq() == ks,
                found == exists|k: int| 0 <= k < it.index() && set@.contains(*ks[k]),
        {
            if set.contains(id) {
                found = true;
            }
        }
        proof {
            assert(ks.unref().to_set() == ws@);
            if found {
                let k = choose|k: int| 0 <= k < ks.len() && set@.contains(*ks[k]);
                assert(ks.unref()[k] == *ks[k]);
                assert(ws@.contains(*ks[k]));
            } else {
                assert forall|x: u32| ws@.contains(x) implies !set@.contains(x) by {
                    assert(ks.unref().to_set().contains(x));
                    let k = choose|k: int| 0 <= k < ks.unref().len() && ks.unref()[k] == x;
                    assert(*ks[k] == x);
                }
            }
        }
        found
    }
}

/// The change ticks a system runs with: the one it last ran at and the current one.
#[derive(Copy, Clone, Debug)]
pub struct SystemTicks {
    pub last_change_tick: u32,
    pub change_tick: u32,
}

impl SystemTicks {
    pub fn new(last_change_tick: u32, change_tick: u32) -> (r: SystemTicks)
        ensures
            r.last_change_tick == last_change_tick,
            r.change_tick == change_tick,
    {
        SystemTicks { last_change_tick, change_tick }
    }

    /// Ticks for a system whose last run is unknown: it counts as running now.
    pub fn new_unknown_last(change_tick: u32) -> (r: SystemTicks)
        ensures
            r.last_change_tick == change_tick,
            r.change_tick == change_tick,
    {
        SystemTicks { last_change_tick: change_tick, change_tick }
    }
}

/// A system's name, the resources and components it accesses, and the tick it last ran at.
pub struct SystemMeta {
    pub name: String,
    pub resource_access: Access,
    pub component_access: Access,
    pub last_change_tick: u32,
}

impl SystemMeta {
    pub fn new(name: String) -> (r: SystemMeta)
        ensures
            r.name@ == name@,
            r.resource_access.wf(),
            r.resource_access@.reads == Set::<u32>::empty(),
            r.resource_access@.writes == Set::<u32>::empty(),
            r.component_access.wf(),
            r.component_access@.reads == Set::<u32>::empty(),
            r.component_access@.writes == Set::<u32>::empty(),
            r.last_change_tick == 0,
    {
        SystemMeta {
            name,
            resource_access: Access::new(),
            component_access: Access::new(),
            last_change_tick: 0,
        }
    }
}

/// Registers read access to a resource; the system must not write it already.
fn register_read(meta: &mut SystemMeta, id: ResourceId)
    requires
        !old(meta).resource_access@.writes.contains(id),
    ensures
        final(meta).resource_access@.reads == old(meta).resource_access@.reads.insert(id),
        final(meta).resource_access@.writes == old(meta).resource_access@.writes,
        old(meta).resource_access.wf() ==> final(meta).resource_access.wf(),
        final(meta).component_access == old(meta).component_access,
        final(meta).name == old(meta).name,
        final(meta).last_change_tick == old(meta).last_change_tick,
{
    meta.resource_access.add_read(id);
}

/// Registers write access to a resource; the system must not read or write it already.
fn register_write(meta: &mut SystemMeta, id: ResourceId)
    requires
        !old(meta).resource_access@.reads.contains(id),
        !old(meta).resource_access@.writes.contains(id),
    ensures
        final(meta).resource_access@.reads == old(meta).resource_access@.reads.insert(id),
        final(meta).resource_access@.writes == old(meta).resource_access@.writes.insert(id),
        old(meta).resource_access.wf() ==> final(meta).resource_access.wf(),
        final(meta).component_access == old(meta).component_access,
        final(meta).name == old(meta).name,
        final(meta).last_change_tick == old(meta).last_change_tick,
{
    meta.resource_access.add_write(id);
}

/// Parameter state for shared access to a resource.
pub struct ResState {
    pub resource_id: ResourceId,
}

impl ResState {
    /// Registers read access to resource `id`; a system that already writes it cannot
    /// also read it through another parameter.
    pub fn new(meta: &mut SystemMeta, id: ResourceId) -> (r: ResState)
        requires
            !old(meta).resource_access@.writes.contains(id),
        ensures
            r.resource_id == id,
            final(meta).resource_access@.reads == old(meta).resource_access@.reads.insert(id),
            final(meta).resource_access@.writes == old(meta).resource_access@.writes,
            old(meta).resource_access.wf() ==> final(meta).resource_access.wf(),
            final(meta).component_access == old(meta).component_access,
    {
        register_read(meta, id);
        ResState { resource_id: id }
    }

    /// The resource, which must be present.
    pub fn get_param<'w, V>(&self, world: &'w World<V>) -> (r: Res<'w, V>)
        requires
            world@.resources.contains_key(self.resource_id),
        ensures
            *r.value == world@.resources[self.resource_id],
    {
        Res { value: world.resource(self.resource_id) }
    }
}

/// Parameter state for optional shared access to a resource.
pub struct OptionResState(pub ResState);

impl OptionResState {
    pub fn new(meta: &mut SystemMeta, id: ResourceId) -> (r: OptionResState)
        requires
            !old(meta).resource_access@.writes.contains(id),
        ensures
            r.0.resource_id == id,
            final(meta).resource_access@.reads == old(meta).resource_access@.reads.insert(id),
            final(meta).resource_access@.writes == old(meta).resource_access@.writes,
            old(meta).resource_access.wf() ==> final(meta).resource_access.wf(),
            final(meta).component_access == old(meta).component_access,
    {
        OptionResState(ResState::new(meta, id))
    }

    /// The resource when it is present.
    pub fn get_param<'w, V>(&self, world: &'w World<V>) -> (r: Option<Res<'w, V>>)
        ensures
            match r {
                Some(res) => world@.resources.contains_key(self.0.resource_id) && *res.value
                    == world@.resources[self.0.resource_id],
                None => !world@.resources.contains_key(self.0.resource_id),
            },
    {
        match world.get_resource(self.0.resource_id) {
            Some(v) => Some(Res { value: v }),
            None => None,
        }
    }
}

/// Parameter state for exclusive access to a resource.
pub struct ResMutState {
    pub resource_id: ResourceId,
}

impl ResMutState {
    /// Registers write access to resource `id`; a system that already reads or writes it
    /// cannot also write it through another parameter.
    pub fn new(meta: &mut SystemMeta, id: ResourceId) -> (r: ResMutState)
        requires
            !old(meta).resource_access@.reads.contains(id),
            !old(meta).resource_access@.writes.contains(id),
        ensures
            r.resource_id == id,
            final(meta).resource_access@.reads == old(meta).resource_access@.reads.insert(id),
            final(meta).resource_access@.writes == old(meta).resource_access@.writes.insert(id),
            old(meta).resource_access.wf() ==> final(meta).resource_access.wf(),
            final(meta).component_access == old(meta).component_access,
    {
        register_write(meta, id);
        ResMutState { resource_id: id }
    }

    /// Exclusive access to the resource, which must be present.
    pub fn get_param<'w, V>(&self, world: &'w mut World<V>) -> (r: ResMut<'w, V>)
        requires
            old(world)@.resources.contains_key(self.resource_id),
        ensures
            *r.value == old(world)@.resources[self.resource_id],
            final(world)@ == old(world)@.with_resources(
                old(world)@.resources.insert(self.resource_id, *final(r.value)),
            ),
            old(world).wf() ==> final(world).wf(),
    {
        ResMut { value: world.resource_mut(self.resource_id) }
    }
}

/// Parameter state for optional exclusive access to a resource.
pub struct OptionResMutState(pub ResMutState);

impl OptionResMutState {
    pub fn new(meta: &mut SystemMeta, id: ResourceId) -> (r: OptionResMutState)
        requires
            !old(meta).resource_access@.reads.contains(id),
            !old(meta).resource_access@.writes.contains(id),
        ensures
            r.0.resource_id == id,
            final(meta).resource_access@.reads == old(meta).resource_access@.reads.insert(id),
            final(meta).resource_access@.writes == old(meta).resource_access@.writes.insert(id),
            old(meta).resource_access.wf() ==> final(meta).resource_access.wf(),
            final(meta).component_access == old(meta).component_access,
    {
        OptionResMutState(ResMutState::new(meta, id))
    }

    /// Exclusive access to the resource when it is present.
    pub fn get_param<'w, V>(&self, world: &'w mut World<V>) -> (r: Option<ResMut<'w, V>>)
        ensures
            match r {
                Some(res) => {
                    &&& old(world)@.resources.contains_key(self.0.resource_id)
                    &&& *res.value == old(world)@.resources[self.0.resource_id]
                    &&& final(world)@ == old(world)@.with_resources(
                        old(world)@.resources.insert(self.0.resource_id, *final(res.value)),
                    )
                },
                None => !old(world)@.resources.contains_key(self.0.resource_id) && final(world)@ == old(world)@,
            },
            old(world).wf() ==> final(world).wf(),
    {
        match world.get_resource_mut(self.0.resource_id) {
            Some(v) => Some(ResMut { value: v }),
            None => None,
        }
    }
}

/// Parameter state for reading the events stored in a resource.
pub struct EventReaderState {
    pub resource_id: ResourceId,
    pub last_event_count: usize,
}

impl EventReaderState {
    /// Registers read access to the event resource `id`; none of its events is read yet.
    pub fn new(meta: &mut SystemMeta, id: ResourceId) -> (r: EventReaderState)
        requires
            !old(meta).resource_access@.writes.contains(id),
        ensures
            r.resource_id == id,
            r.last_event_count == 0,
            final(meta).resource_access@.reads == old(meta).resource_access@.reads.insert(id),
            final(meta).resource_access@.writes == old(meta).resource_access@.writes,
            old(meta).resource_access.wf() ==> final(meta).resource_access.wf(),
            final(meta).component_access == old(meta).component_access,
    {
        register_read(meta, id);
        EventReaderState { resource_id: id, last_event_count: 0 }
    }
}

/// Parameter state for sending events to a resource.
pub struct EventWriterState {
    pub resource_id: ResourceId,
}

impl EventWriterState {
    /// Registers write access to the event resource `id`.
    pub fn new(meta: &mut SystemMeta, id: ResourceId) -> (r: EventWriterState)
        requires
            !old(meta).resource_access@.reads.contains(id),
            !old(meta).resource_access@.writes.contains(id),
        ensures
            r.resource_id == id,
            final(meta).resource_access@.reads == old(meta).resource_access@.reads.insert(id),
            final(meta).resource_access@.writes == old(meta).resource_access@.writes.insert(id),
            old(meta).resource_access.wf() ==> final(meta).resource_access.wf(),
            final(meta).component_access == old(meta).component_access,
    {
        register_write(meta, id);
        EventWriterState { resource_id: id }
    }
}

/// Shared access to a resource value.
pub struct Res<'w, T> {
    pub value: &'w T,
}

impl<'w, T> Res<'w, T> {
    pub fn into_inner(self) -> (r: &'w T)
        ensures
            *r == *self.value,
    {
        self.value
    }
}

/// Exclusive access to a resource value.
pub struct ResMut<'a, T> {
    pub value: &'a mut T,
}

impl<'a, T> ResMut<'a, T> {
    pub fn into_inner(self) -> (r: &'a mut T)
        ensures
            *r == *old(self.value),
            *final(r) == *final(self.value),
    {
        self.value
    }
}

/// A value that belongs to one system and survives between its runs.
pub struct Local<'a, T>(pub &'a mut T);

/// The stored value behind a `Local`.
pub struct LocalState<T>(pub T);

impl<T> LocalState<T> {
    pub fn new(value: T) -> (r: LocalState<T>)
        ensures
            r.0 == value,
    {
        LocalState(value)
    }

    /// Exclusive access to the stored value.
    pub fn get_param(&mut self) -> (r: Local<'_, T>)
        ensures
            *r.0 == old(self).0,
            *final(r.0) == final(self).0,
    {
        Local(&mut self.0)
    }
}

/// The input handed to a system that takes one.
pub struct In<T>(pub T);

/// Marks systems that take an input.
pub struct InputMarker;

/// Marks values that already are systems.
pub struct AlreadyWasSystem;

/// The entities that lost a component since the world's trackers were last cleared.
pub struct RemovedComponents<'w, V> {
    pub world: &'w World<V>,
    pub component_id: ComponentId,
}

impl<'w, V> RemovedComponents<'w, V> {
    /// The entities, oldest removal first.
    pub fn iter(&self) -> (r: &[Entity])
        ensures
            r@ == removed_log(self.world@.removed, self.component_id),
    {
        self.world.removed_with_id(self.component_id)
    }
}

/// Parameter state for the removals of one component.
pub struct RemovedComponentsState {
    pub component_id: ComponentId,
}

impl RemovedComponentsState {
    pub fn new(component_id: ComponentId) -> (r: RemovedComponentsState)
        ensures
            r.component_id == component_id,
    {
        RemovedComponentsState { component_id }
    }

    pub fn get_param<'w, V>(&self, world: &'w World<V>) -> (r: RemovedComponents<'w, V>)
        ensures
            r.world == world,
            r.component_id == self.component_id,
    {
        RemovedComponents { world, component_id: self.component_id }
    }
}

} // verus!
