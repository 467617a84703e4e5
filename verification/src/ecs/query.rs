//! Queries: which entities have a given set of components, and access to those
//! components under the access a query declared.
use vstd::prelude::*;

use crate::ecs::entity::{ComponentId, Entity, SlotState};
use crate::ecs::system::{compatible, Access, SystemMeta, SystemTicks};
use crate::ecs::world::{World, WorldView};

verus! {

/// Every id of `ids` is a key of `c`.
pub open spec fn has_all<V>(c: Map<ComponentId, V>, ids: Seq<ComponentId>) -> bool {
    forall|k: int| 0 <= k < ids.len() ==> c.contains_key(#[trigger] ids[k])
}

/// `has_all` holds exactly when every id in `ids` is a key of `c`.
proof fn lemma_has_all_contains<V>(c: Map<ComponentId, V>, ids: Seq<ComponentId>)
    ensures
        has_all(c, ids) <==> forall|k: ComponentId| #[trigger] ids.contains(k) ==> c.contains_key(k),
{
    if has_all(c, ids) {
        assert forall|k: ComponentId| #[trigger] ids.contains(k) implies c.contains_key(k) by {
            let t = choose|t: int| 0 <= t < ids.len() && ids[t] == k;
        }
    }
    if forall|k: ComponentId| #[trigger] ids.contains(k) ==> c.contains_key(k) {
        assert forall|t: int| 0 <= t < ids.len() implies c.contains_key(#[trigger] ids[t]) by {
            assert(ids.contains(ids[t]));
        }
    }
}

/// `has_none` holds exactly when no id in `ids` is a key of `c`.
proof fn lemma_has_none_contains<V>(c: Map<ComponentId, V>, ids: Seq<ComponentId>)
    ensures
        has_none(c, ids) <==> forall|k: ComponentId| #[trigger] ids.contains(k) ==> !c.contains_key(k),
{
    if has_none(c, ids) {
        assert forall|k: ComponentId| #[trigger] ids.contains(k) implies !c.contains_key(k) by {
            let t = choose|t: int| 0 <= t < ids.len() && ids[t] == k;
        }
    }
    if forall|k: ComponentId| #[trigger] ids.contains(k) ==> !c.contains_key(k) {
        assert forall|t: int| 0 <= t < ids.len() implies !c.contains_key(#[trigger] ids[t]) by {
            assert(ids.contains(ids[t]));
        }
    }
}

/// No id of `ids` is a key of `c`.
pub open spec fn has_none<V>(c: Map<ComponentId, V>, ids: Seq<ComponentId>) -> bool {
    forall|k: int| 0 <= k < ids.len() ==> !c.contains_key(#[trigger] ids[k])
}

/// The handle of the entity in slot `i`.
pub open spec fn slot_entity<V>(w: WorldView<V>, i: int) -> Entity {
    Entity { id: i as u32, generation: w.metas[i].generation }
}

/// What a query fetches and filters on: the components it reads, those it writes, those
/// an entity must have besides, and those it must not have.
pub struct QueryState {
    pub reads: Vec<ComponentId>,
    pub writes: Vec<ComponentId>,
    pub with: Vec<ComponentId>,
    pub without: Vec<ComponentId>,
    pub component_access: Access,
}

/// Why a query cannot hand out a component.
#[derive(Debug, Clone, Copy, PartialEq, Eq, Structural)]
pub enum QueryComponentError {
    MissingReadAccess,
    MissingWriteAccess,
    MissingComponent,
    NoSuchEntity,
}

/// Why a query has no single result.
#[derive(Debug, Clone, Copy, PartialEq, Eq, Structural)]
pub enum QuerySingleError {
    NoEntities,
    MultipleEntities,
}

/// Why a query does not hand out an entity.
#[derive(Debug, Clone, Copy, PartialEq, Eq, Structural)]
pub enum QueryEntityError {
    QueryDoesNotMatch,
    NoSuchEntity,
}

impl QueryState {
    /// The access record holds the fetched components, reads and writes alike, and the
    /// written ones as writes.
    pub open spec fn wf(&self) -> bool {
        &&& self.component_access.wf()
        &&& self.component_access@.reads == self.reads@.to_set() + self.writes@.to_set()
        &&& self.component_access@.writes == self.writes@.to_set()
    }

    /// An entity with components `c` is one this query yields.
    pub open spec fn matches<V>(&self, c: Map<ComponentId, V>) -> bool {
        &&& has_all(c, self.reads@)
        &&& has_all(c, self.writes@)
        &&& has_all(c, self.with@)
        &&& has_none(c, self.without@)
    }

    /// The entity in slot `i` is alive and matches.
    pub open spec fn matches_slot<V>(&self, w: WorldView<V>, i: int) -> bool {
        &&& w.metas[i].state == SlotState::Alive
        &&& self.matches(w.data[i].components)
    }

    /// The matching entities among the first `n` slots, in slot order.
    pub open spec fn matching_upto<V>(&self, w: WorldView<V>, n: nat) -> Seq<Entity>
        decreases n,
    {
        if n == 0 {
            Seq::empty()
        } else {
            let prev = self.matching_upto(w, (n - 1) as nat);
            if self.matches_slot(w, n - 1) {
                prev.push(slot_entity(w, n - 1))
            } else {
                prev
            }
        }
    }

    /// The entities this query yields from world `w`, in slot order.
    pub open spec fn matching<V>(&self, w: WorldView<V>) -> Seq<Entity> {
        self.matching_upto(w, w.metas.len())
    }

    /// A query state over the given fetched and filtered components.
    pub fn new(
        reads: Vec<ComponentId>,
        writes: Vec<ComponentId>,
        with: Vec<ComponentId>,
        without: Vec<ComponentId>,
    ) -> (r: QueryState)
        ensures
            r.wf(),
            r.reads@ == reads@,
            r.writes@ == writes@,
            r.with@ == with@,
            r.without@ == without@,
    {
        let mut access = Access::new();
        for i in 0..reads.len()
            invariant
                access.wf(),
                access@.reads == reads@.take(i as int).to_set(),
                access@.writes == Set::<u32>::empty(),
        {
            access.add_read(reads[i]);
            proof {
                assert(reads@.take(i + 1) == reads@.take(i as int).push(reads@[i as int]));
                reads@.take(i as int).lemma_push_to_set_commute(reads@[i as int]);
            }
        }
        proof {
            assert(reads@.take(reads@.len() as int) == reads@);
        }
        for i in 0..writes.len()
            invariant
                access.wf(),
                access@.reads == reads@.to_set() + writes@.take(i as int).to_set(),
                access@.writes == writes@.take(i as int).to_set(),
        {
            access.add_write(writes[i]);
            proof {
                assert(writes@.take(i + 1) == writes@.take(i as int).push(writes@[i as int]));
                writes@.take(i as int).lemma_push_to_set_commute(writes@[i as int]);
                assert(access@.reads =~= reads@.to_set() + writes@.take(i + 1).to_set());
            }
        }
        proof {
            assert(writes@.take(writes@.len() as int) == writes@);
        }
        QueryState { reads, writes, with, without, component_access: access }
    }

    /// Whether the entity in alive slot `i` has what the query asks for.
    fn matches_at<V>(&self, world: &World<V>, e: Entity) -> (r: bool)
        requires
            world.wf(),
            world@.alive(e),
        ensures
            r == self.matches(world@.components_of(e)),
    {
        let a = Self::has_each(world, e, &self.reads);
        let b = Self::has_each(world, e, &self.writes);
        let c = Self::has_each(world, e, &self.with);
        let d = Self::has_no(world, e, &self.without);
        a && b && c && d
    }

    fn has_each<V>(world: &World<V>, e: Entity, ids: &Vec<ComponentId>) -> (r: bool)
        requires
            world.wf(),
            world@.alive(e),
        ensures
            r == has_all(world@.components_of(e), ids@),
    {
        for i in 0..ids.len()
            invariant
                world.wf(),
                world@.alive(e),
                forall|k: int| 0 <= k < i ==> world@.components_of(e).contains_key(#[trigger] ids@[k]),
        {
            if !world.contains_component(e, ids[i]) {
                return false;
            }
        }
        true
    }

    fn has_no<V>(world: &World<V>, e: Entity, ids: &Vec<ComponentId>) -> (r: bool)
        requires
            world.wf(),
            world@.alive(e),
        ensures
            r == has_none(world@.components_of(e), ids@),
    {
        for i in 0..ids.len()
            invariant
                world.wf(),
                world@.alive(e),
                forall|k: int| 0 <= k < i ==> !world@.components_of(e).contains_key(#[trigger] ids@[k]),
        {
            if world.contains_component(e, ids[i]) {
                return false;
            }
        }
        true
    }

    /// The entities this query yields, in slot order.
    pub fn iter<V>(&self, world: &World<V>) -> (r: Vec<Entity>)
        requires
            world.wf(),
        ensures
            r@ == self.matching(world@),
    {
        proof {
            world.lemma_wf_view();
            self.lemma_matching_len(world@, world@.metas.len());
        }
        self.collect(world, usize::MAX)
    }

    /// At most one entity matches per slot.
    proof fn lemma_matching_len<V>(&self, w: WorldView<V>, n: nat)
        ensures
            self.matching_upto(w, n).len() <= n,
        decreases n,
    {
        if n > 0 {
            self.lemma_matching_len(w, (n - 1) as nat);
        }
    }

    /// The first `limit` entities this query yields, or all of them if there are fewer.
    fn collect<V>(&self, world: &World<V>, limit: usize) -> (r: Vec<Entity>)
        requires
            world.wf(),
        ensures
            r@.len() <= limit,
            r@.len() <= self.matching(world@).len(),
            r@ == self.matching(world@).take(r@.len() as int),
            r@.len() < limit ==> r@ == self.matching(world@),
    {
        proof {
            world.lemma_wf_view();
        }
        let n = world.entities().meta_len();
        let mut out: Vec<Entity> = Vec::new();
        let mut i: usize = 0;
        while i < n && out.len() < limit
            invariant
                world.wf(),
                n == world@.metas.len(),
                n <= u32::MAX,
                i <= n,
                world@.data.len() == n,
                out@.len() <= limit,
                out@ == self.matching_upto(world@, i as nat),
            decreases n - i,
        {
            let meta = world.entities().slot_meta(i as u32);
            if meta.state == SlotState::Alive {
                let e = Entity { id: i as u32, generation: meta.generation };
                proof {
                    assert(world@.alive(e));
                    assert(world@.components_of(e) == world@.data[i as int].components);
                }
                if self.matches_at(world, e) {
                    out.push(e);
                }
            }
            i = i + 1;
        }
        proof {
            self.lemma_matching_prefix(world@, i as nat, n as nat);
        }
        out
    }

    /// The matches among the first `m` slots begin the matches among the first `n`.
    pub proof fn lemma_matching_prefix<V>(&self, w: WorldView<V>, m: nat, n: nat)
        requires
            m <= n,
        ensures
            self.matching_upto(w, m).len() <= self.matching_upto(w, n).len(),
            self.matching_upto(w, n).take(self.matching_upto(w, m).len() as int)
                == self.matching_upto(w, m),
        decreases n - m,
    {
        if m < n {
            self.lemma_matching_prefix(w, m, (n - 1) as nat);
            let a = self.matching_upto(w, m);
            let b = self.matching_upto(w, (n - 1) as nat);
            let c = self.matching_upto(w, n);
            assert(c.take(b.len() as int) =~= b);
            assert(c.take(a.len() as int) =~= b.take(a.len() as int));
        } else {
            assert(self.matching_upto(w, n).take(self.matching_upto(w, n).len() as int)
                =~= self.matching_upto(w, n));
        }
    }

    /// An entity matches exactly when it has every component the query reads, writes or
    /// requires with `with`, and none that it excludes with `without`.
    pub proof fn lemma_matches_components<V>(&self, c: Map<ComponentId, V>)
        ensures
            self.matches(c) <==> {
                &&& forall|k: ComponentId| #[trigger] self.reads@.contains(k) ==> c.contains_key(k)
                &&& forall|k: ComponentId| #[trigger] self.writes@.contains(k) ==> c.contains_key(k)
                &&& forall|k: ComponentId| #[trigger] self.with@.contains(k) ==> c.contains_key(k)
                &&& forall|k: ComponentId| #[trigger] self.without@.contains(k) ==> !c.contains_key(k)
            },
    {
        lemma_has_all_contains(c, self.reads@);
        lemma_has_all_contains(c, self.writes@);
        lemma_has_all_contains(c, self.with@);
        lemma_has_none_contains(c, self.without@);
    }

    /// The entities a query yields are exactly the alive entities that match it: what
    /// `get` accepts is what `iter` lists.
    pub proof fn lemma_matching_contains<V>(&self, w: WorldView<V>, e: Entity)
        requires
            w.metas.len() <= u32::MAX,
            w.data.len() == w.metas.len(),
        ensures
            self.matching(w).contains(e) <==> (w.alive(e) && self.matches(w.components_of(e))),
    {
        self.lemma_matching_upto_contains(w, e, w.metas.len());
    }

    proof fn lemma_matching_upto_contains<V>(&self, w: WorldView<V>, e: Entity, n: nat)
        requires
            n <= w.metas.len(),
            w.metas.len() <= u32::MAX,
            w.data.len() == w.metas.len(),
        ensures
            self.matching_upto(w, n).contains(e) <==> (e.id < n && w.alive(e) && self.matches(w.components_of(e))),
        decreases n,
    {
        if n > 0 {
            self.lemma_matching_upto_contains(w, e, (n - 1) as nat);
            let prev = self.matching_upto(w, (n - 1) as nat);
            let i = n - 1;
            let se = slot_entity(w, i);
            assert(se.id == i);
            if self.matches_slot(w, i) {
                assert(self.matching_upto(w, n) == prev.push(se));
                if e == se {
                    assert(prev.push(se)[prev.len() as int] == e);
                } else {
                    if prev.push(se).contains(e) {
                        let k = choose|k: int| 0 <= k < prev.push(se).len() && prev.push(se)[k] == e;
                        assert(k < prev.len());
                        assert(prev[k] == e);
                    }
                    if prev.contains(e) {
                        let k = choose|k: int| 0 <= k < prev.len() && prev[k] == e;
                        assert(prev.push(se)[k] == e);
                    }
                }
            }
        }
    }

    /// Whether this query yields no entity.
    pub fn is_empty<V>(&self, world: &World<V>) -> (r: bool)
        requires
            world.wf(),
        ensures
            r == (self.matching(world@).len() == 0),
    {
        let found = self.collect(world, 1);
        found.len() == 0
    }
}

/// A query bound to a world: the entities it yields and their components.
pub struct Query<'w, 's, V> {
    pub world: &'w mut World<V>,
    pub state: &'s QueryState,
    pub system_ticks: SystemTicks,
}

impl<'w, 's, V> Query<'w, 's, V> {
    pub fn new(world: &'w mut World<V>, state: &'s QueryState, system_ticks: SystemTicks) -> (r: Query<'w, 's, V>)
        ensures
            *r.world == *old(world),
            *final(r.world) == *final(world),
            *r.state == *state,
            r.system_ticks == system_ticks,
    {
        Query { world, state, system_ticks }
    }

    /// The entities the query yields, in slot order.
    pub fn iter(&self) -> (r: Vec<Entity>)
        requires
            self.world.wf(),
        ensures
            r@ == self.state.matching(old(self.world)@),
    {
        self.state.iter(self.world)
    }

    /// The entities the query yields, in slot order, for exclusive use.
    pub fn iter_mut(&mut self) -> (r: Vec<Entity>)
        requires
            old(self).world.wf(),
        ensures
            r@ == old(self).state.matching(old(self).world@),
            *final(self) == *old(self),
    {
        self.iter()
    }

    /// `entity`, for exclusive use, if it is alive and the query yields it.
    pub fn get_mut(&mut self, entity: Entity) -> (r: Result<Entity, QueryEntityError>)
        requires
            old(self).world.wf(),
        ensures
            match r {
                Ok(e) => e == entity && old(self).world@.alive(entity) && old(self).state.matches(
                    old(self).world@.components_of(entity),
                ),
                Err(QueryEntityError::NoSuchEntity) => !old(self).world@.alive(entity),
                Err(QueryEntityError::QueryDoesNotMatch) => old(self).world@.alive(entity)
                    && !old(self).state.matches(old(self).world@.components_of(entity)),
            },
            *final(self) == *old(self),
    {
        self.get(entity)
    }

    /// Whether the query yields no entity.
    pub fn is_empty(&self) -> (r: bool)
        requires
            self.world.wf(),
        ensures
            r == (self.state.matching(old(self.world)@).len() == 0),
    {
        self.state.is_empty(self.world)
    }

    /// `entity`, if it is alive and the query yields it.
    pub fn get(&self, entity: Entity) -> (r: Result<Entity, QueryEntityError>)
        requires
            self.world.wf(),
        ensures
            match r {
                Ok(e) => e == entity && old(self.world)@.alive(entity) && self.state.matches(
                    old(self.world)@.components_of(entity),
                ),
                Err(QueryEntityError::NoSuchEntity) => !old(self.world)@.alive(entity),
                Err(QueryEntityError::QueryDoesNotMatch) => old(self.world)@.alive(entity)
                    && !self.state.matches(old(self.world)@.components_of(entity)),
            },
    {
        if !self.world.has_entity(entity) {
            return Err(QueryEntityError::NoSuchEntity);
        }
        if self.state.matches_at(self.world, entity) {
            Ok(entity)
        } else {
            Err(QueryEntityError::QueryDoesNotMatch)
        }
    }

    /// The one entity the query yields, or why there is not exactly one.
    pub fn get_single(&self) -> (r: Result<Entity, QuerySingleError>)
        requires
            self.world.wf(),
        ensures
            match r {
                Ok(e) => self.state.matching(old(self.world)@) == seq![e],
                Err(QuerySingleError::NoEntities) => self.state.matching(old(self.world)@).len() == 0,
                Err(QuerySingleError::MultipleEntities) => self.state.matching(old(self.world)@).len() >= 2,
            },
    {
        let found = self.state.collect(self.world, 2);
        if found.len() == 0 {
            Err(QuerySingleError::NoEntities)
        } else if found.len() == 1 {
            proof {
                assert(found@ == seq![found@[0]]);
            }
            Ok(found[0])
        } else {
            Err(QuerySingleError::MultipleEntities)
        }
    }

    /// The one entity the query yields; there must be exactly one.
    pub fn single(&self) -> (r: Entity)
        requires
            self.world.wf(),
            self.state.matching(self.world@).len() == 1,
        ensures
            self.state.matching(old(self.world)@) == seq![r],
    {
        match self.get_single() {
            Ok(e) => e,
            Err(_) => {
                proof {
                    assert(false);
                }
                Entity { id: 0, generation: 0 }
            },
        }
    }

    /// The one entity the query yields, for exclusive use, or why there is not exactly one.
    pub fn get_single_mut(&mut self) -> (r: Result<Entity, QuerySingleError>)
        requires
            old(self).world.wf(),
        ensures
            match r {
                Ok(e) => old(self).state.matching(old(self).world@) == seq![e],
                Err(QuerySingleError::NoEntities) => old(self).state.matching(old(self).world@).len() == 0,
                Err(QuerySingleError::MultipleEntities) => old(self).state.matching(old(self).world@).len() >= 2,
            },
            *final(self) == *old(self),
    {
        self.get_single()
    }

    /// The one entity the query yields, for exclusive use; there must be exactly one.
    pub fn single_mut(&mut self) -> (r: Entity)
        requires
            old(self).world.wf(),
            old(self).state.matching(old(self).world@).len() == 1,
        ensures
            old(self).state.matching(old(self).world@) == seq![r],
            *final(self) == *old(self),
    {
        self.single()
    }

    /// Component `k` of `entity`, if the query declared read access to it. The checks come
    /// in this order: the entity is alive, `k` is registered, the query reads `k`, the
    /// entity has `k`.
    pub fn get_component(&self, entity: Entity, k: ComponentId) -> (r: Result<&V, QueryComponentError>)
        requires
            self.world.wf(),
        ensures
            match r {
                Ok(v) => {
                    &&& old(self.world)@.alive(entity)
                    &&& old(self.world)@.registered.contains(k)
                    &&& self.state.component_access@.reads.contains(k)
                    &&& old(self.world)@.components_of(entity).contains_key(k)
                    &&& *v == old(self.world)@.components_of(entity)[k]
                },
                Err(QueryComponentError::NoSuchEntity) => !old(self.world)@.alive(entity),
                Err(QueryComponentError::MissingReadAccess) => old(self.world)@.alive(entity)
                    && old(self.world)@.registered.contains(k)
                    && !self.state.component_access@.reads.contains(k),
                Err(QueryComponentError::MissingComponent) => old(self.world)@.alive(entity) && (
                    !old(self.world)@.registered.contains(k) || (
                    self.state.component_access@.reads.contains(k)
                    && !old(self.world)@.components_of(entity).contains_key(k))),
                Err(QueryComponentError::MissingWriteAccess) => false,
            },
    {
        if !self.world.has_entity(entity) {
            return Err(QueryComponentError::NoSuchEntity);
        }
        if !self.world.is_registered(k) {
            return Err(QueryComponentError::MissingComponent);
        }
        if self.state.component_access.has_read(k) {
            match self.world.get_component(entity, k) {
                Some(v) => Ok(v),
                None => Err(QueryComponentError::MissingComponent),
            }
        } else {
            Err(QueryComponentError::MissingReadAccess)
        }
    }

    /// Exclusive access to component `k` of `entity`, if the query declared write access
    /// to it. The checks come in this order: the entity is alive, `k` is registered, the
    /// query writes `k`, the entity has `k`.
    pub fn get_component_mut(&mut self, entity: Entity, k: ComponentId) -> (r: Result<&mut V, QueryComponentError>)
        requires
            old(self).world.wf(),
        ensures
            final(self).state == old(self).state,
            final(self).system_ticks == old(self).system_ticks,
            *final(final(self).world) == *final(old(self).world),
            final(self).world.wf(),
            match r {
                Ok(v) => {
                    &&& old(self).world@.alive(entity)
                    &&& old(self).world@.registered.contains(k)
                    &&& old(self).state.component_access@.writes.contains(k)
                    &&& old(self).world@.components_of(entity).contains_key(k)
                    &&& *v == old(self).world@.components_of(entity)[k]
                    &&& final(self).world@ == old(self).world@.with_components(
                        entity,
                        old(self).world@.components_of(entity).insert(k, *final(v)),
                    )
                },
                Err(e) => {
                    &&& final(self).world@ == old(self).world@
                    &&& match e {
                        QueryComponentError::NoSuchEntity => !old(self).world@.alive(entity),
                        QueryComponentError::MissingWriteAccess => old(self).world@.alive(entity)
                            && old(self).world@.registered.contains(k)
                            && !old(self).state.component_access@.writes.contains(k),
                        QueryComponentError::MissingComponent => old(self).world@.alive(entity) && (
                            !old(self).world@.registered.contains(k) || (
                            old(self).state.component_access@.writes.contains(k)
                            && !old(self).world@.components_of(entity).contains_key(k))),
                        QueryComponentError::MissingReadAccess => false,
                    }
                },
            },
    {
        if !self.world.has_entity(entity) {
            return Err(QueryComponentError::NoSuchEntity);
        }
        if !self.world.is_registered(k) {
            return Err(QueryComponentError::MissingComponent);
        }
        if self.state.component_access.has_write(k) {
            match self.world.get_component_mut(entity, k) {
                Some(v) => Ok(v),
                None => Err(QueryComponentError::MissingComponent),
            }
        } else {
            Err(QueryComponentError::MissingWriteAccess)
        }
    }
}

impl QueryState {
    /// The query that a system whose last run was at tick `last_change_tick` runs over
    /// `world` at tick `change_tick`.
    pub fn get_param<'w, 's, V>(&'s self, world: &'w mut World<V>, last_change_tick: u32, change_tick: u32) -> (r: Query<
        'w,
        's,
        V,
    >)
        ensures
            *r.world == *old(world),
            *final(r.world) == *final(world),
            *r.state == *self,
            r.system_ticks == (SystemTicks { last_change_tick, change_tick }),
    {
        Query::new(world, self, SystemTicks::new(last_change_tick, change_tick))
    }
}

impl<V> World<V> {
    /// A query state over the given read and written components, with no filter.
    pub fn query(&mut self, reads: Vec<ComponentId>, writes: Vec<ComponentId>) -> (r: QueryState)
        ensures
            r.wf(),
            r.reads@ == reads@,
            r.writes@ == writes@,
            r.with@.len() == 0,
            r.without@.len() == 0,
            *final(self) == *old(self),
    {
        QueryState::new(reads, writes, Vec::new(), Vec::new())
    }
}

/// Registers a query's component access with the system that runs it. A system whose
/// parameters access components in conflicting ways is refused, so the access must be
/// compatible with what the system already holds.
pub fn init_query_state(state: QueryState, meta: &mut SystemMeta) -> (r: QueryState)
    requires
        state.wf(),
        old(meta).component_access.wf(),
        compatible(old(meta).component_access@, state.component_access@),
    ensures
        r == state,
        final(meta).component_access.wf(),
        final(meta).component_access@.reads == old(meta).component_access@.reads + state.component_access@.reads,
        final(meta).component_access@.writes == old(meta).component_access@.writes + state.component_access@.writes,
        final(meta).resource_access == old(meta).resource_access,
        final(meta).name == old(meta).name,
        final(meta).last_change_tick == old(meta).last_change_tick,
{
    meta.component_access.extend(&state.component_access);
    state
}

} // verus!
