//! Handles to one entity of a world, and the parent/children hierarchy between entities.
use vstd::prelude::*;
use vstd::std_specs::iter::IteratorSpec;

use crate::ecs::entity::{flush_meta, ComponentId, Entity, EntityMeta, SlotState};
use crate::ecs::world::{removed_log, World, WorldView};

verus! {

/// Keeps every entity other than `x`.
pub open spec fn other_than(x: Entity) -> spec_fn(Entity) -> bool {
    |y: Entity| y != x
}

/// Keeps the entities that `set` does not hold.
pub open spec fn not_in(set: Seq<Entity>) -> spec_fn(Entity) -> bool {
    |y: Entity| !set.contains(y)
}

/// Keeps the entities that `set` holds.
pub open spec fn is_in(set: Seq<Entity>) -> spec_fn(Entity) -> bool {
    |y: Entity| set.contains(y)
}

/// The entities of `v` other than `x`, in order, and whether `x` was among them.
fn filter_out(v: &Vec<Entity>, x: Entity) -> (r: (Vec<Entity>, bool))
    ensures
        r.0@ == v@.filter(other_than(x)),
        r.1 == v@.contains(x),
{
    let mut out: Vec<Entity> = Vec::new();
    let mut found = false;
    let mut i: usize = 0;
    while i < v.len()
        invariant
            i <= v.len(),
            out@ == v@.take(i as int).filter(other_than(x)),
            found == v@.take(i as int).contains(x),
        decreases v.len() - i,
    {
        proof {
            reveal(Seq::filter);
            assert(v@.take(i as int + 1).drop_last() =~= v@.take(i as int));
            assert(v@.take(i as int + 1) =~= v@.take(i as int).push(v@[i as int]));
            v@.take(i as int).lemma_push_to_set_commute(v@[i as int]);
            assert(v@.take(i as int + 1).to_set().contains(x) == v@.take(i as int + 1).contains(x));
            assert(v@.take(i as int).to_set().contains(x) == v@.take(i as int).contains(x));
        }
        if v[i] == x {
            found = true;
        } else {
            out.push(v[i]);
        }
        i = i + 1;
    }
    proof {
        assert(v@.take(v@.len() as int) =~= v@);
    }
    (out, found)
}

/// Whether the slice holds `x`.
fn slice_contains(s: &[Entity], x: Entity) -> (r: bool)
    ensures
        r == s@.contains(x),
{
    let mut i: usize = 0;
    while i < s.len()
        invariant
            i <= s.len(),
            forall|j: int| 0 <= j < i ==> s@[j] != x,
        decreases s.len() - i,
    {
        if s[i] == x {
            return true;
        }
        i = i + 1;
    }
    false
}

/// Splits `v` into the entities that `set` does not hold and those it does, keeping order.
fn split_by(v: &Vec<Entity>, set: &[Entity]) -> (r: (Vec<Entity>, Vec<Entity>))
    ensures
        r.0@ == v@.filter(not_in(set@)),
        r.1@ == v@.filter(is_in(set@)),
{
    let mut kept: Vec<Entity> = Vec::new();
    let mut taken: Vec<Entity> = Vec::new();
    let mut i: usize = 0;
    while i < v.len()
        invariant
            i <= v.len(),
            kept@ == v@.take(i as int).filter(not_in(set@)),
            taken@ == v@.take(i as int).filter(is_in(set@)),
        decreases v.len() - i,
    {
        proof {
            reveal(Seq::filter);
            assert(v@.take(i as int + 1).drop_last() =~= v@.take(i as int));
        }
        if slice_contains(set, v[i]) {
            taken.push(v[i]);
        } else {
            kept.push(v[i]);
        }
        i = i + 1;
    }
    proof {
        assert(v@.take(v@.len() as int) =~= v@);
    }
    (kept, taken)
}

/// `v` with `cs` spliced in at `index`.
fn splice_at(v: &Vec<Entity>, index: usize, cs: &[Entity]) -> (r: Vec<Entity>)
    requires
        index <= v@.len(),
    ensures
        r@ == v@.subrange(0, index as int) + cs@ + v@.subrange(index as int, v@.len() as int),
{
    let mut out: Vec<Entity> = Vec::new();
    let mut i: usize = 0;
    while i < index
        invariant
            i <= index <= v@.len(),
            out@ == v@.subrange(0, i as int),
        decreases index - i,
    {
        out.push(v[i]);
        proof {
            assert(v@.subrange(0, i as int + 1) =~= v@.subrange(0, i as int).push(v@[i as int]));
        }
        i = i + 1;
    }
    let mut j: usize = 0;
    while j < cs.len()
        invariant
            j <= cs.len(),
            out@ == v@.subrange(0, index as int) + cs@.subrange(0, j as int),
        decreases cs.len() - j,
    {
        out.push(cs[j]);
        proof {
            assert(cs@.subrange(0, j as int + 1) =~= cs@.subrange(0, j as int).push(cs@[j as int]));
            assert(v@.subrange(0, index as int) + cs@.subrange(0, j as int + 1) =~= (v@.subrange(0, index as int) + cs@.subrange(0, j as int)).push(cs@[j as int]));
        }
        j = j + 1;
    }
    let mut k: usize = index;
    while k < v.len()
        invariant
            index <= k <= v@.len(),
            out@ == v@.subrange(0, index as int) + cs@ + v@.subrange(index as int, k as int),
        decreases v.len() - k,
    {
        out.push(v[k]);
        proof {
            assert(v@.subrange(0, index as int) + cs@ + v@.subrange(index as int, k as int + 1) =~= (v@.subrange(0, index as int) + cs@ + v@.subrange(index as int, k as int)).push(v@[k as int]));
        }
        k = k + 1;
    }
    proof {
        assert(cs@.subrange(0, cs@.len() as int) =~= cs@);
    }
    out
}

impl<V> WorldView<V> {
    /// `e` is detached from its parent: the parent's children list loses `e` and `e` loses
    /// its parent link.
    pub open spec fn removed_from_parent(self, e: Entity) -> WorldView<V> {
        match self.parent_of(e) {
            Some(p) => self.with_children(
                p,
                Some(self.children_of(p).unwrap().filter(other_than(e))),
            ).with_parent(e, None),
            None => self,
        }
    }

    /// Detaching `e` from its parent does not panic: the parent is alive and has a
    /// children list.
    pub open spec fn can_remove_from_parent(self, e: Entity) -> bool {
        match self.parent_of(e) {
            Some(p) => self.alive(p) && self.children_of(p).is_some(),
            None => true,
        }
    }

    /// The children list of `e` with `cs` appended, or `cs` when it has none.
    pub open spec fn appended_children(self, e: Entity, cs: Seq<Entity>) -> Option<Seq<Entity>> {
        match self.children_of(e) {
            Some(l) => Some(l + cs),
            None => Some(cs),
        }
    }

    /// `c` gets parent `e` and is appended to the children of `e`.
    pub open spec fn pushed_child(self, e: Entity, c: Entity) -> WorldView<V> {
        let w = self.with_parent(c, Some(e));
        w.with_children(e, w.appended_children(e, seq![c]))
    }

    /// Each of `cs` gets parent `e`, and `cs` is appended to the children of `e`.
    pub open spec fn pushed_children(self, e: Entity, cs: Seq<Entity>) -> WorldView<V> {
        let w = self.with_parents(cs, Some(e));
        w.with_children(e, w.appended_children(e, cs))
    }

    /// The children list of `e` with `cs` spliced in at `index`, or `cs` when it has none.
    pub open spec fn spliced_children(self, e: Entity, index: int, cs: Seq<Entity>) -> Option<Seq<Entity>> {
        match self.children_of(e) {
            Some(l) => Some(l.subrange(0, index) + cs + l.subrange(index, l.len() as int)),
            None => Some(cs),
        }
    }

    /// Splicing at `index` does not panic.
    pub open spec fn can_splice(self, e: Entity, index: int) -> bool {
        match self.children_of(e) {
            Some(l) => index <= l.len(),
            None => true,
        }
    }

    /// `c` gets parent `e` and is inserted at `index` among the children of `e`.
    pub open spec fn inserted_child(self, e: Entity, index: int, c: Entity) -> WorldView<V> {
        let w = self.with_parent(c, Some(e));
        w.with_children(e, w.spliced_children(e, index, seq![c]))
    }

    /// Each of `cs` gets parent `e`, and `cs` is inserted at `index` among the children of `e`.
    pub open spec fn inserted_children(self, e: Entity, index: int, cs: Seq<Entity>) -> WorldView<V> {
        let w = self.with_parents(cs, Some(e));
        w.with_children(e, w.spliced_children(e, index, cs))
    }

    /// `c` leaves the children list of `e`; when it was there it also loses its parent link.
    pub open spec fn removed_child(self, e: Entity, c: Entity) -> WorldView<V> {
        match self.children_of(e) {
            Some(l) => {
                let w = self.with_children(e, Some(l.filter(other_than(c))));
                if l.contains(c) {
                    w.with_parent(c, None)
                } else {
                    w
                }
            },
            None => self,
        }
    }

    /// Removing `c` from the children of `e` does not panic.
    pub open spec fn can_remove_child(self, e: Entity, c: Entity) -> bool {
        match self.children_of(e) {
            Some(l) => l.contains(c) ==> self.alive(c),
            None => true,
        }
    }

    /// The entities of `cs` leave the children list of `e`; those that were there lose
    /// their parent link.
    pub open spec fn removed_children(self, e: Entity, cs: Seq<Entity>) -> WorldView<V> {
        match self.children_of(e) {
            Some(l) => self.with_children(e, Some(l.filter(not_in(cs)))).with_parents(
                l.filter(is_in(cs)),
                None,
            ),
            None => self,
        }
    }

    /// Removing `cs` from the children of `e` does not panic.
    pub open spec fn can_remove_children(self, e: Entity, cs: Seq<Entity>) -> bool {
        match self.children_of(e) {
            Some(l) => self.all_alive(l.filter(is_in(cs))),
            None => true,
        }
    }

    /// `e` stays as it is when alive, and is made alive in its slot otherwise.
    pub open spec fn got_or_spawned(self, e: Entity) -> WorldView<V> {
        if self.alive(e) {
            self
        } else {
            self.spawned_at(e)
        }
    }

    /// Each `(entity, bundle)` pair in turn: the entity is fetched or spawned in place, and
    /// gets the bundle; pairs whose slot holds another live generation are skipped.
    pub open spec fn batch_inserted(self, b: Seq<(Entity, Seq<(ComponentId, V)>)>) -> WorldView<V>
        decreases b.len(),
    {
        if b.len() == 0 {
            self
        } else {
            let w = self.batch_inserted(b.drop_last());
            let (e, bundle) = b.last();
            if w.can_spawn_at(e) {
                w.got_or_spawned(e).with_bundle(e, bundle)
            } else {
                w
            }
        }
    }

    /// The entities of a batch whose slot held another live generation, in batch order.
    pub open spec fn batch_rejected(self, b: Seq<(Entity, Seq<(ComponentId, V)>)>) -> Seq<Entity>
        decreases b.len(),
    {
        if b.len() == 0 {
            Seq::empty()
        } else {
            let w = self.batch_inserted(b.drop_last());
            let rej = self.batch_rejected(b.drop_last());
            if w.can_spawn_at(b.last().0) {
                rej
            } else {
                rej.push(b.last().0)
            }
        }
    }

    /// The children of `e`, or none.
    pub open spec fn children_or_empty(self, e: Entity) -> Seq<Entity> {
        match self.children_of(e) {
            Some(l) => l,
            None => Seq::empty(),
        }
    }

    /// `e` leaves its parent, its children lose their parent link, and `e` is freed.
    pub open spec fn despawned_alone(self, e: Entity) -> WorldView<V> {
        let w = self.removed_from_parent(e);
        w.with_parents(w.children_or_empty(e), None).despawned(e)
    }

    /// Despawning `e` alone does not panic.
    pub open spec fn can_despawn(self, e: Entity) -> bool {
        &&& self.alive(e)
        &&& self.can_remove_from_parent(e)
        &&& self.removed_from_parent(e).all_alive(self.removed_from_parent(e).children_or_empty(e))
    }
}

/// Adding components keeps the entity table as it is.
pub proof fn lemma_with_bundle_alive<V>(w: WorldView<V>, e: Entity, b: Seq<(ComponentId, V)>)
    requires
        e.id < w.data.len(),
    ensures
        w.with_bundle(e, b).metas == w.metas,
        w.with_bundle(e, b).free == w.free,
        w.with_bundle(e, b).data.len() == w.data.len(),
    decreases b.len(),
{
    if b.len() > 0 {
        lemma_with_bundle_alive(w, e, b.drop_last());
    }
}

/// Removing components leaves the entity table and every other entity's data alone, and
/// keeps the components that were not removed.
pub proof fn lemma_without_components<V>(w: WorldView<V>, e: Entity, ids: Seq<ComponentId>)
    requires
        e.id < w.data.len(),
    ensures
        w.without_components(e, ids).metas == w.metas,
        w.without_components(e, ids).free == w.free,
        w.without_components(e, ids).data.len() == w.data.len(),
        forall|k: ComponentId| #![trigger w.without_components(e, ids).components_of(e).contains_key(k)]
            !ids.contains(k) ==> (w.without_components(e, ids).components_of(e).contains_key(k)
                == w.components_of(e).contains_key(k) && w.without_components(e, ids).components_of(e)[k]
                == w.components_of(e)[k]),
    decreases ids.len(),
{
    if ids.len() > 0 {
        lemma_without_components(w, e, ids.drop_last());
        assert forall|k: ComponentId| !ids.contains(k) implies !ids.drop_last().contains(k) by {
            if ids.drop_last().contains(k) {
                let t = choose|t: int| 0 <= t < ids.drop_last().len() && ids.drop_last()[t] == k;
                assert(ids[t] == k);
            }
        }
        assert(ids[ids.len() - 1] == ids.last());
    }
}

/// Inserting a bundle: the entity then has the components it had and those of the
/// bundle, each component of the bundle with the value of its last pair, the others as
/// they were; every other entity, the removal log and the entity table stay as they were,
/// and the bundle's components are registered.
pub proof fn lemma_insert_bundle_components<V>(w: WorldView<V>, e: Entity, b: Seq<(ComponentId, V)>)
    requires
        e.id < w.data.len(),
    ensures
        forall|k: ComponentId| #[trigger] w.with_bundle(e, b).components_of(e).contains_key(k)
            <==> w.components_of(e).contains_key(k) || exists|i: int| 0 <= i < b.len() && b[i].0 == k,
        forall|k: ComponentId| (forall|i: int| 0 <= i < b.len() ==> b[i].0 != k) && w.components_of(e).contains_key(k)
            ==> #[trigger] w.with_bundle(e, b).components_of(e)[k] == w.components_of(e)[k],
        forall|i: int| 0 <= i < b.len() && (forall|j: int| i < j < b.len() ==> b[j].0 != b[i].0)
            ==> #[trigger] w.with_bundle(e, b).components_of(e)[b[i].0] == b[i].1,
        forall|x: Entity| x.id != e.id && x.id < w.data.len() ==> #[trigger] w.with_bundle(e, b).components_of(x)
            == w.components_of(x),
        forall|k: ComponentId| #[trigger] w.with_bundle(e, b).registered.contains(k)
            <==> w.registered.contains(k) || exists|i: int| 0 <= i < b.len() && b[i].0 == k,
        w.with_bundle(e, b).removed == w.removed,
        w.with_bundle(e, b).metas == w.metas,
    decreases b.len(),
{
    if b.len() > 0 {
        let p = b.drop_last();
        lemma_insert_bundle_components(w, e, p);
        lemma_with_bundle_alive(w, e, p);
        let last = b.len() - 1;
        assert(b[last] == b.last());
        assert forall|k: ComponentId| #[trigger] w.with_bundle(e, b).components_of(e).contains_key(k)
            <==> w.components_of(e).contains_key(k) || exists|i: int| 0 <= i < b.len() && b[i].0 == k by {
            if exists|i: int| 0 <= i < b.len() && b[i].0 == k {
                let i = choose|i: int| 0 <= i < b.len() && b[i].0 == k;
                if i < last {
                    assert(p[i].0 == k);
                }
            }
            if exists|i: int| 0 <= i < p.len() && p[i].0 == k {
                let i = choose|i: int| 0 <= i < p.len() && p[i].0 == k;
                assert(b[i].0 == k);
            }
        }
        assert forall|k: ComponentId| #[trigger] w.with_bundle(e, b).registered.contains(k)
            <==> w.registered.contains(k) || exists|i: int| 0 <= i < b.len() && b[i].0 == k by {
            if exists|i: int| 0 <= i < b.len() && b[i].0 == k {
                let i = choose|i: int| 0 <= i < b.len() && b[i].0 == k;
                if i < last {
                    assert(p[i].0 == k);
                }
            }
            if exists|i: int| 0 <= i < p.len() && p[i].0 == k {
                let i = choose|i: int| 0 <= i < p.len() && p[i].0 == k;
                assert(b[i].0 == k);
            }
        }
        assert forall|x: Entity| x.id != e.id && x.id < w.data.len() implies #[trigger] w.with_bundle(e, b).components_of(x)
            == w.components_of(x) by {
            assert(w.with_bundle(e, p).components_of(x) == w.components_of(x));
        }
        assert forall|k: ComponentId| (forall|i: int| 0 <= i < b.len() ==> b[i].0 != k) && w.components_of(e).contains_key(k)
            implies #[trigger] w.with_bundle(e, b).components_of(e)[k] == w.components_of(e)[k] by {
            assert(b[last].0 != k);
            assert forall|i: int| 0 <= i < p.len() implies p[i].0 != k by {
                assert(b[i].0 != k);
            }
        }
        assert forall|i: int| 0 <= i < b.len() && (forall|j: int| i < j < b.len() ==> b[j].0 != b[i].0)
            implies #[trigger] w.with_bundle(e, b).components_of(e)[b[i].0] == b[i].1 by {
            if i < last {
                assert(b[last].0 != b[i].0);
                assert(p[i] == b[i]);
                assert forall|j: int| i < j < p.len() implies p[j].0 != p[i].0 by {
                    assert(b[j].0 != b[i].0);
                }
            }
        }
    }
}

/// Removing the components `ids`: the entity keeps exactly the components it had that are
/// not among `ids`, with their values; each component it had among `ids` logs its removal
/// once; every other entity and the entity table stay as they were.
pub proof fn lemma_remove_components_set<V>(w: WorldView<V>, e: Entity, ids: Seq<ComponentId>)
    requires
        e.id < w.data.len(),
    ensures
        forall|k: ComponentId| #[trigger] w.without_components(e, ids).components_of(e).contains_key(k)
            <==> w.components_of(e).contains_key(k) && !ids.contains(k),
        forall|k: ComponentId| w.components_of(e).contains_key(k) && !ids.contains(k)
            ==> #[trigger] w.without_components(e, ids).components_of(e)[k] == w.components_of(e)[k],
        forall|x: Entity| x.id != e.id && x.id < w.data.len() ==> #[trigger] w.without_components(e, ids).components_of(x)
            == w.components_of(x),
        forall|k: ComponentId| #[trigger] removed_log(w.without_components(e, ids).removed, k) == if ids.contains(k)
            && w.components_of(e).contains_key(k) {
            removed_log(w.removed, k).push(e)
        } else {
            removed_log(w.removed, k)
        },
        w.without_components(e, ids).metas == w.metas,
    decreases ids.len(),
{
    lemma_without_components(w, e, ids);
    if ids.len() > 0 {
        let p = ids.drop_last();
        let k0 = ids.last();
        lemma_remove_components_set(w, e, p);
        assert(ids[ids.len() - 1] == k0);
        assert forall|k: ComponentId| #[trigger] ids.contains(k) <==> p.contains(k) || k == k0 by {
            if ids.contains(k) && k != k0 {
                let t = choose|t: int| 0 <= t < ids.len() && ids[t] == k;
                assert(p[t] == k);
            }
            if p.contains(k) {
                let t = choose|t: int| 0 <= t < p.len() && p[t] == k;
                assert(ids[t] == k);
            }
        }
        let prev = w.without_components(e, p);
        let after = w.without_components(e, ids);
        lemma_without_components(w, e, p);
        assert(e.id < prev.data.len());
        assert(after == prev.without_component(e, k0));
        assert(after.components_of(e) == if prev.components_of(e).contains_key(k0) {
            prev.components_of(e).remove(k0)
        } else {
            prev.components_of(e)
        });
        assert forall|k: ComponentId| #[trigger] after.components_of(e).contains_key(k)
            <==> w.components_of(e).contains_key(k) && !ids.contains(k) by {
            assert(ids.contains(k) <==> p.contains(k) || k == k0);
            assert(prev.components_of(e).contains_key(k) <==> w.components_of(e).contains_key(k) && !p.contains(k));
        }
        assert forall|k: ComponentId| w.components_of(e).contains_key(k) && !ids.contains(k)
            implies #[trigger] after.components_of(e)[k] == w.components_of(e)[k] by {
            assert(ids.contains(k) <==> p.contains(k) || k == k0);
            assert(prev.components_of(e).contains_key(k));
        }
        assert forall|x: Entity| x.id != e.id && x.id < w.data.len() implies #[trigger] after.components_of(x)
            == w.components_of(x) by {
            assert(prev.components_of(x) == w.components_of(x));
        }
        assert forall|k: ComponentId| #[trigger] removed_log(w.without_components(e, ids).removed, k) == if ids.contains(k)
            && w.components_of(e).contains_key(k) {
            removed_log(w.removed, k).push(e)
        } else {
            removed_log(w.removed, k)
        } by {
            assert(removed_log(prev.removed, k) == if p.contains(k) && w.components_of(e).contains_key(k) {
                removed_log(w.removed, k).push(e)
            } else {
                removed_log(w.removed, k)
            });
            assert(prev.components_of(e).contains_key(k0) == (w.components_of(e).contains_key(k0) && !p.contains(k0)));
        }
    }
}

/// A batch of bundles as plain values.
pub open spec fn batch_view<V>(b: Seq<(Entity, Vec<(ComponentId, V)>)>) -> Seq<(Entity, Seq<(ComponentId, V)>)> {
    b.map_values(|p: (Entity, Vec<(ComponentId, V)>)| (p.0, p.1@))
}

/// Read access to one alive entity of a world.
pub struct EntityRef<'w, V> {
    pub world: &'w World<V>,
    pub entity: Entity,
}

/// Write access to one alive entity of a world.
pub struct EntityMut<'w, V> {
    pub world: &'w mut World<V>,
    pub entity: Entity,
}

impl<'w, V> EntityRef<'w, V> {
    pub fn new(world: &'w World<V>, entity: Entity) -> (r: EntityRef<'w, V>)
        ensures
            r.world == world,
            r.entity == entity,
    {
        EntityRef { world, entity }
    }

    pub fn id(&self) -> (r: Entity)
        ensures
            r == self.entity,
    {
        self.entity
    }

    pub fn contains(&self, k: ComponentId) -> (r: bool)
        requires
            self.world.wf(),
            self.world@.alive(self.entity),
        ensures
            r == self.world@.components_of(self.entity).contains_key(k),
    {
        self.world.contains_component(self.entity, k)
    }

    pub fn get(&self, k: ComponentId) -> (r: Option<&V>)
        requires
            self.world.wf(),
            self.world@.alive(self.entity),
        ensures
            match r {
                Some(v) => self.world@.components_of(self.entity).contains_key(k) && *v
                    == self.world@.components_of(self.entity)[k],
                None => !self.world@.components_of(self.entity).contains_key(k),
            },
    {
        self.world.get_component(self.entity, k)
    }

    pub fn parent(&self) -> (r: Option<Entity>)
        requires
            self.world.wf(),
            self.world@.alive(self.entity),
        ensures
            r == self.world@.parent_of(self.entity),
    {
        self.world.parent_of(self.entity)
    }

    pub fn children(&self) -> (r: Option<&[Entity]>)
        requires
            self.world.wf(),
            self.world@.alive(self.entity),
        ensures
            match r {
                Some(c) => self.world@.children_of(self.entity) == Some(c@),
                None => self.world@.children_of(self.entity).is_none(),
            },
    {
        self.world.children_of(self.entity)
    }
}

impl<'w, V> EntityMut<'w, V> {
    pub fn new(world: &'w mut World<V>, entity: Entity) -> (r: EntityMut<'w, V>)
        ensures
            *r.world == *old(world),
            *final(r.world) == *final(world),
            r.entity == entity,
    {
        EntityMut { world, entity }
    }

    pub fn id(&self) -> (r: Entity)
        ensures
            r == self.entity,
    {
        self.entity
    }

    pub fn contains(&self, k: ComponentId) -> (r: bool)
        requires
            self.world.wf(),
            self.world@.alive(self.entity),
        ensures
            r == old(self.world)@.components_of(self.entity).contains_key(k),
    {
        self.world.contains_component(self.entity, k)
    }

    pub fn get(&self, k: ComponentId) -> (r: Option<&V>)
        requires
            self.world.wf(),
            self.world@.alive(self.entity),
        ensures
            match r {
                Some(v) => old(self.world)@.components_of(self.entity).contains_key(k) && *v
                    == old(self.world)@.components_of(self.entity)[k],
                None => !old(self.world)@.components_of(self.entity).contains_key(k),
            },
    {
        self.world.get_component(self.entity, k)
    }

    pub fn parent(&self) -> (r: Option<Entity>)
        requires
            self.world.wf(),
            self.world@.alive(self.entity),
        ensures
            r == old(self.world)@.parent_of(self.entity),
    {
        self.world.parent_of(self.entity)
    }

    pub fn children(&self) -> (r: Option<&[Entity]>)
        requires
            self.world.wf(),
            self.world@.alive(self.entity),
        ensures
            match r {
                Some(c) => old(self.world)@.children_of(self.entity) == Some(c@),
                None => old(self.world)@.children_of(self.entity).is_none(),
            },
    {
        self.world.children_of(self.entity)
    }

    /// Adds or replaces the components of `bundle`, in order.
    pub fn insert_bundle(&mut self, bundle: Vec<(ComponentId, V)>) -> (r: &mut Self)
        requires
            old(self).world.wf(),
            old(self).world@.alive(old(self).entity),
        ensures
            r.world.wf(),
            r.entity == old(self).entity,
            r.world@ == old(self).world@.with_bundle(old(self).entity, bundle@),
            *final(r) == *final(self),
            *final(r.world) == *final(old(self).world),
    {
        let e = self.entity;
        let ghost b = bundle@;
        let ghost w0 = self.world@;
        proof {
            self.world.lemma_wf_view();
        }
        for item in it: bundle
            invariant
                it.seq() == b,
                self.entity == e,
                self.world.wf(),
                w0.alive(e),
                e.id < w0.data.len(),
                self.world@ == w0.with_bundle(e, b.take(it.index() as int)),
                *final(self.world) == *final(old(self).world),
        {
            let (k, v) = item;
            proof {
                assert(b.take(it.index() as int + 1).drop_last() =~= b.take(it.index() as int));
                lemma_with_bundle_alive(w0, e, b.take(it.index() as int));
            }
            self.world.insert_component(e, k, v);
        }
        proof {
            assert(b.take(b.len() as int) =~= b);
        }
        self
    }

    pub fn insert(&mut self, k: ComponentId, value: V) -> (r: &mut Self)
        requires
            old(self).world.wf(),
            old(self).world@.alive(old(self).entity),
        ensures
            r.world.wf(),
            r.entity == old(self).entity,
            r.world@ == old(self).world@.with_component(old(self).entity, k, value),
            *final(r) == *final(self),
            *final(r.world) == *final(old(self).world),
    {
        let e = self.entity;
        self.world.insert_component(e, k, value);
        self
    }

    /// Exclusive access to component `k` of the entity.
    pub fn get_mut(&mut self, k: ComponentId) -> (r: Option<&mut V>)
        requires
            old(self).world.wf(),
            old(self).world@.alive(old(self).entity),
        ensures
            final(self).entity == old(self).entity,
            final(self).world.wf(),
            *final(final(self).world) == *final(old(self).world),
            match r {
                Some(v) => {
                    &&& old(self).world@.components_of(old(self).entity).contains_key(k)
                    &&& *v == old(self).world@.components_of(old(self).entity)[k]
                    &&& final(self).world@ == old(self).world@.with_components(
                        old(self).entity,
                        old(self).world@.components_of(old(self).entity).insert(k, *final(v)),
                    )
                },
                None => !old(self).world@.components_of(old(self).entity).contains_key(k)
                    && final(self).world@ == old(self).world@,
            },
    {
        let e = self.entity;
        self.world.get_component_mut(e, k)
    }

    /// Removes component `k`, logging the removal when there was one.
    pub fn remove(&mut self, k: ComponentId) -> (r: Option<V>)
        requires
            old(self).world.wf(),
            old(self).world@.alive(old(self).entity),
        ensures
            final(self).world.wf(),
            final(self).entity == old(self).entity,
            final(self).world@ == old(self).world@.without_component(old(self).entity, k),
            *final(final(self).world) == *final(old(self).world),
            r == old(self).world@.components_of(old(self).entity).get(k),
    {
        let e = self.entity;
        self.world.remove_component(e, k)
    }

    /// Removes every component of `ids` the entity has, logging each removal.
    pub fn remove_bundle_intersection(&mut self, ids: &[ComponentId])
        requires
            old(self).world.wf(),
            old(self).world@.alive(old(self).entity),
        ensures
            final(self).world.wf(),
            final(self).entity == old(self).entity,
            final(self).world@ == old(self).world@.without_components(old(self).entity, ids@),
            *final(final(self).world) == *final(old(self).world),
    {
        let e = self.entity;
        let ghost w0 = self.world@;
        proof {
            self.world.lemma_wf_view();
        }
        let mut j: usize = 0;
        while j < ids.len()
            invariant
                j <= ids.len(),
                self.entity == e,
                self.world.wf(),
                w0.alive(e),
                e.id < w0.data.len(),
                self.world@ == w0.without_components(e, ids@.take(j as int)),
                *final(self.world) == *final(old(self).world),
            decreases ids.len() - j,
        {
            proof {
                assert(ids@.take(j as int + 1).drop_last() =~= ids@.take(j as int));
                lemma_without_components(w0, e, ids@.take(j as int));
            }
            self.world.remove_component(e, ids[j]);
            j = j + 1;
        }
        proof {
            assert(ids@.take(ids@.len() as int) =~= ids@);
        }
    }

    /// Removes all components of `ids` and hands back their values in order, or does
    /// nothing and gives `None` when the entity lacks one of them.
    pub fn remove_bundle(&mut self, ids: &[ComponentId]) -> (r: Option<Vec<V>>)
        requires
            old(self).world.wf(),
            old(self).world@.alive(old(self).entity),
            ids@.no_duplicates(),
        ensures
            final(self).world.wf(),
            final(self).entity == old(self).entity,
            *final(final(self).world) == *final(old(self).world),
            match r {
                Some(vals) => {
                    &&& forall|t: int| 0 <= t < ids@.len() ==> old(self).world@.components_of(
                        old(self).entity,
                    ).contains_key(#[trigger] ids@[t])
                    &&& vals@.len() == ids@.len()
                    &&& forall|t: int| 0 <= t < ids@.len() ==> #[trigger] vals@[t] == old(
                        self,
                    ).world@.components_of(old(self).entity)[ids@[t]]
                    &&& final(self).world@ == old(self).world@.without_components(
                        old(self).entity,
                        ids@,
                    )
                },
                None => {
                    &&& exists|t: int| 0 <= t < ids@.len() && !old(self).world@.components_of(
                        old(self).entity,
                    ).contains_key(#[trigger] ids@[t])
                    &&& final(self).world@ == old(self).world@
                },
            },
    {
        let e = self.entity;
        let ghost w0 = self.world@;
        proof {
            self.world.lemma_wf_view();
        }
        let mut j: usize = 0;
        while j < ids.len()
            invariant
                j <= ids.len(),
                self.entity == e,
                self.world.wf(),
                self.world@ == w0,
                *final(self.world) == *final(old(self).world),
                w0.alive(e),
                e.id < w0.data.len(),
                forall|t: int| 0 <= t < j ==> w0.components_of(e).contains_key(#[trigger] ids@[t]),
            decreases ids.len() - j,
        {
            if !self.world.contains_component(e, ids[j]) {
                return None;
            }
            j = j + 1;
        }
        let mut vals: Vec<V> = Vec::new();
        let mut j: usize = 0;
        while j < ids.len()
            invariant
                j <= ids.len(),
                self.entity == e,
                self.world.wf(),
                w0.alive(e),
                e.id < w0.data.len(),
                ids@.no_duplicates(),
                forall|t: int| 0 <= t < ids@.len() ==> w0.components_of(e).contains_key(#[trigger] ids@[t]),
                self.world@ == w0.without_components(e, ids@.take(j as int)),
                *final(self.world) == *final(old(self).world),
                vals@.len() == j,
                forall|t: int| 0 <= t < j ==> #[trigger] vals@[t] == w0.components_of(e)[ids@[t]],
            decreases ids.len() - j,
        {
            proof {
                assert(ids@.take(j as int + 1).drop_last() =~= ids@.take(j as int));
                lemma_without_components(w0, e, ids@.take(j as int));
                assert(!ids@.take(j as int).contains(ids@[j as int])) by {
                    if ids@.take(j as int).contains(ids@[j as int]) {
                        let t = choose|t: int| 0 <= t < j && ids@.take(j as int)[t] == ids@[j as int];
                        assert(ids@[t] == ids@[j as int]);
                    }
                }
            }
            let v = self.world.remove_component(e, ids[j]);
            vals.push(v.unwrap());
            j = j + 1;
        }
        proof {
            assert(ids@.take(ids@.len() as int) =~= ids@);
        }
        Some(vals)
    }

    /// `child` gets this entity as parent and is appended to its children.
    pub fn push_child(&mut self, child: Entity) -> (r: &mut Self)
        requires
            old(self).world.wf(),
            old(self).world@.alive(old(self).entity),
            old(self).world@.alive(child),
        ensures
            r.world.wf(),
            r.entity == old(self).entity,
            r.world@ == old(self).world@.pushed_child(old(self).entity, child),
            *final(r) == *final(self),
            *final(r.world) == *final(old(self).world),
    {
        let e = self.entity;
        self.world.set_parent(child, Some(e));
        let ch = self.world.take_children(e);
        let mut list = match ch {
            Some(v) => v,
            None => Vec::new(),
        };
        list.push(child);
        self.world.set_children(e, Some(list));
        proof {
            old(self).world.lemma_wf_view();
            let w1 = old(self).world@.with_parent(child, Some(e));
            match w1.children_of(e) {
                Some(l) => {
                    assert(l + seq![child] =~= list@);
                },
                None => {
                    assert(seq![child] =~= list@);
                },
            }
            let w3 = w1.with_children(e, None).with_children(e, Some(list@));
            assert(self.world@ == w3);
            assert(w3.data =~= w1.with_children(e, Some(list@)).data);
            assert(w3 =~= w1.with_children(e, Some(list@)));
            assert(self.world@ =~= old(self).world@.pushed_child(e, child));
        }
        self
    }

    /// Each of `children` gets this entity as parent, and they are appended to its children.
    pub fn push_children(&mut self, children: &[Entity]) -> (r: &mut Self)
        requires
            old(self).world.wf(),
            old(self).world@.alive(old(self).entity),
            old(self).world@.all_alive(children@),
        ensures
            r.world.wf(),
            r.entity == old(self).entity,
            r.world@ == old(self).world@.pushed_children(old(self).entity, children@),
            *final(r) == *final(self),
            *final(r.world) == *final(old(self).world),
    {
        let e = self.entity;
        self.world.set_parents(children, Some(e));
        let ch = self.world.take_children(e);
        let mut list = match ch {
            Some(v) => v,
            None => Vec::new(),
        };
        let mut j: usize = 0;
        let ghost start = list@;
        while j < children.len()
            invariant
                j <= children.len(),
                list@ == start + children@.take(j as int),
            decreases children.len() - j,
        {
            list.push(children[j]);
            proof {
                assert(start + children@.take(j as int + 1) =~= (start + children@.take(j as int)).push(children@[j as int]));
            }
            j = j + 1;
        }
        proof {
            assert(children@.take(children@.len() as int) =~= children@);
            assert(Seq::<Entity>::empty() + children@ =~= children@);
        }
        self.world.set_children(e, Some(list));
        proof {
            old(self).world.lemma_wf_view();
            let w1 = old(self).world@.with_parents(children@, Some(e));
            match w1.children_of(e) {
                Some(l) => {
                    assert(l + children@ =~= list@);
                },
                None => {
                    assert(children@ =~= list@);
                },
            }
            assert(self.world@ =~= old(self).world@.pushed_children(e, children@));
        }
        self
    }

    /// `child` gets this entity as parent and is inserted at `index` among its children.
    pub fn insert_child(&mut self, index: usize, child: Entity) -> (r: &mut Self)
        requires
            old(self).world.wf(),
            old(self).world@.alive(old(self).entity),
            old(self).world@.alive(child),
            old(self).world@.can_splice(old(self).entity, index as int),
        ensures
            r.world.wf(),
            r.entity == old(self).entity,
            r.world@ == old(self).world@.inserted_child(old(self).entity, index as int, child),
            *final(r) == *final(self),
            *final(r.world) == *final(old(self).world),
    {
        let e = self.entity;
        self.world.set_parent(child, Some(e));
        let ch = self.world.take_children(e);
        proof {
            old(self).world.lemma_wf_view();
            assert(old(self).world@.with_parent(child, Some(e)).children_of(e) == old(self).world@.children_of(e));
        }
        let list = match ch {
            Some(v) => {
                let mut v = v;
                v.insert(index, child);
                v
            },
            None => {
                let mut v = Vec::new();
                v.push(child);
                v
            },
        };
        self.world.set_children(e, Some(list));
        proof {
            old(self).world.lemma_wf_view();
            let w1 = old(self).world@.with_parent(child, Some(e));
            match w1.children_of(e) {
                Some(l) => {
                    assert(l.subrange(0, index as int) + seq![child] + l.subrange(index as int, l.len() as int) =~= list@);
                },
                None => {
                    assert(seq![child] =~= list@);
                },
            }
            assert(self.world@ =~= old(self).world@.inserted_child(e, index as int, child));
        }
        self
    }

    /// Each of `children` gets this entity as parent, and they are inserted at `index`
    /// among its children.
    pub fn insert_children(&mut self, index: usize, children: &[Entity]) -> (r: &mut Self)
        requires
            old(self).world.wf(),
            old(self).world@.alive(old(self).entity),
            old(self).world@.all_alive(children@),
            old(self).world@.can_splice(old(self).entity, index as int),
        ensures
            r.world.wf(),
            r.entity == old(self).entity,
            r.world@ == old(self).world@.inserted_children(old(self).entity, index as int, children@),
            *final(r) == *final(self),
            *final(r.world) == *final(old(self).world),
    {
        let e = self.entity;
        self.world.set_parents(children, Some(e));
        let ch = self.world.take_children(e);
        proof {
            old(self).world.lemma_wf_view();
            assert(old(self).world@.with_parents(children@, Some(e)).children_of(e) == old(self).world@.children_of(e));
        }
        let list = match ch {
            Some(v) => splice_at(&v, index, children),
            None => splice_at(&Vec::new(), 0, children),
        };
        self.world.set_children(e, Some(list));
        proof {
            old(self).world.lemma_wf_view();
            let w1 = old(self).world@.with_parents(children@, Some(e));
            match w1.children_of(e) {
                Some(l) => {},
                None => {
                    assert(Seq::<Entity>::empty().subrange(0, 0) + children@ + Seq::<Entity>::empty().subrange(0, 0) =~= children@);
                },
            }
            assert(self.world@ =~= old(self).world@.inserted_children(e, index as int, children@));
        }
        self
    }

    /// `child` leaves the children of this entity; when it was there it loses its parent.
    pub fn remove_child(&mut self, child: Entity) -> (r: &mut Self)
        requires
            old(self).world.wf(),
            old(self).world@.alive(old(self).entity),
            old(self).world@.can_remove_child(old(self).entity, child),
        ensures
            r.world.wf(),
            r.entity == old(self).entity,
            r.world@ == old(self).world@.removed_child(old(self).entity, child),
            *final(r) == *final(self),
            *final(r.world) == *final(old(self).world),
    {
        let e = self.entity;
        let ch = self.world.take_children(e);
        proof {
            old(self).world.lemma_wf_view();
        }
        match ch {
            Some(v) => {
                let (kept, found) = filter_out(&v, child);
                self.world.set_children(e, Some(kept));
                if found {
                    self.world.set_parent(child, None);
                }
                proof {
                    assert(self.world@ =~= old(self).world@.removed_child(e, child));
                }
            },
            None => {
                proof {
                    assert(self.world@ =~= old(self).world@);
                }
            },
        }
        self
    }

    /// The entities of `children` leave the children of this entity; those that were there
    /// lose their parent.
    pub fn remove_children(&mut self, children: &[Entity]) -> (r: &mut Self)
        requires
            old(self).world.wf(),
            old(self).world@.alive(old(self).entity),
            old(self).world@.can_remove_children(old(self).entity, children@),
        ensures
            r.world.wf(),
            r.entity == old(self).entity,
            r.world@ == old(self).world@.removed_children(old(self).entity, children@),
            *final(r) == *final(self),
            *final(r.world) == *final(old(self).world),
    {
        let e = self.entity;
        let ch = self.world.take_children(e);
        proof {
            old(self).world.lemma_wf_view();
        }
        match ch {
            Some(v) => {
                let (kept, taken) = split_by(&v, children);
                self.world.set_children(e, Some(kept));
                self.world.set_parents(taken.as_slice(), None);
                proof {
                    assert(self.world@ =~= old(self).world@.removed_children(e, children@));
                }
            },
            None => {
                proof {
                    assert(self.world@ =~= old(self).world@);
                }
            },
        }
        self
    }

    /// Detaches this entity from its parent.
    pub fn remove_from_parent(&mut self) -> (r: &mut Self)
        requires
            old(self).world.wf(),
            old(self).world@.alive(old(self).entity),
            old(self).world@.can_remove_from_parent(old(self).entity),
        ensures
            r.world.wf(),
            r.entity == old(self).entity,
            r.world@ == old(self).world@.removed_from_parent(old(self).entity),
            *final(r) == *final(self),
            *final(r.world) == *final(old(self).world),
    {
        let e = self.entity;
        match self.world.parent_of(e) {
            Some(p) => {
                let ch = self.world.take_children(p);
                let v = ch.unwrap();
                let (kept, found) = filter_out(&v, e);
                self.world.set_children(p, Some(kept));
                self.world.set_parent(e, None);
                proof {
                    old(self).world.lemma_wf_view();
                    assert(self.world@ =~= old(self).world@.removed_from_parent(e));
                }
            },
            None => {},
        }
        self
    }

    /// Detaches this entity from its parent, clears the parent link of its children and
    /// frees it.
    pub fn despawn(self)
        requires
            self.world.wf(),
            self.world@.can_despawn(self.entity),
        ensures
            final(self.world).wf(),
            final(self.world)@ == old(self.world)@.despawned_alone(self.entity),
    {
        let mut this = self;
        let e = this.entity;
        this.remove_from_parent();
        let ghost w1 = this.world@;
        proof {
            this.world.lemma_wf_view();
        }
        let ch = this.world.take_children(e);
        proof {
            this.world.lemma_wf_view();
        }
        match ch {
            Some(v) => {
                this.world.set_parents(v.as_slice(), None);
            },
            None => {},
        }
        proof {
            let cs = w1.children_or_empty(e);
            let a = w1.with_children(e, None).with_parents(cs, None);
            let b = w1.with_parents(cs, None);
            assert(a.components_of(e) == b.components_of(e));
            assert(a.despawned(e).data =~= b.despawned(e).data);
            assert(a.despawned(e) =~= b.despawned(e));
            if ch.is_none() {
                assert(w1.with_children(e, None) =~= w1.with_children(e, None).with_parents(Seq::empty(), None));
            }
        }
        this.world.despawn_self(e);
    }
}

impl<V> World<V> {
    /// Spawns an entity without components and gives write access to it.
    pub fn spawn(&mut self) -> (r: EntityMut<'_, V>)
        requires
            old(self).wf(),
            old(self)@.can_alloc(),
        ensures
            r.world.wf(),
            r.entity == old(self)@.next_entity(),
            r.world@ == old(self)@.allocated(SlotState::Alive),
            *final(r.world) == *final(self),
    {
        let e = self.take_slot(SlotState::Alive);
        EntityMut { world: self, entity: e }
    }

    pub fn get_entity(&self, e: Entity) -> (r: Option<EntityRef<'_, V>>)
        ensures
            match r {
                Some(er) => self@.alive(e) && er.world == self && er.entity == e,
                None => !self@.alive(e),
            },
    {
        if self.has_entity(e) {
            Some(EntityRef { world: self, entity: e })
        } else {
            None
        }
    }

    pub fn entity(&self, e: Entity) -> (r: EntityRef<'_, V>)
        requires
            self@.alive(e),
        ensures
            r.world == self,
            r.entity == e,
    {
        EntityRef { world: self, entity: e }
    }

    pub fn get_entity_mut(&mut self, e: Entity) -> (r: Option<EntityMut<'_, V>>)
        ensures
            match r {
                Some(em) => old(self)@.alive(e) && *em.world == *old(self) && em.entity == e
                    && *final(em.world) == *final(self),
                None => !old(self)@.alive(e) && *final(self) == *old(self),
            },
    {
        if self.has_entity(e) {
            Some(EntityMut { world: self, entity: e })
        } else {
            None
        }
    }

    pub fn entity_mut(&mut self, e: Entity) -> (r: EntityMut<'_, V>)
        requires
            old(self)@.alive(e),
        ensures
            *r.world == *old(self),
            r.entity == e,
            *final(r.world) == *final(self),
    {
        EntityMut { world: self, entity: e }
    }

    /// Despawns `e` when it is alive; tells whether it was.
    pub fn despawn(&mut self, e: Entity) -> (r: bool)
        requires
            old(self).wf(),
            old(self)@.alive(e) ==> old(self)@.can_despawn(e),
        ensures
            final(self).wf(),
            r == old(self)@.alive(e),
            final(self)@ == if r {
                old(self)@.despawned_alone(e)
            } else {
                old(self)@
            },
    {
        match self.get_entity_mut(e) {
            Some(em) => {
                em.despawn();
                true
            },
            None => false,
        }
    }

    /// Gives write access to `e`, spawning it in its own slot when it is not alive; `None`
    /// when its slot holds another live generation.
    pub fn get_or_spawn(&mut self, e: Entity) -> (r: Option<EntityMut<'_, V>>)
        requires
            old(self).wf(),
            e.id < u32::MAX,
        ensures
            match r {
                Some(em) => {
                    &&& old(self)@.can_spawn_at(e)
                    &&& em.entity == e
                    &&& em.world.wf()
                    &&& em.world@ == old(self)@.got_or_spawned(e)
                    &&& *final(em.world) == *final(self)
                },
                None => !old(self)@.can_spawn_at(e) && *final(self) == *old(self),
            },
    {
        if self.has_entity(e) {
            return Some(EntityMut { world: self, entity: e });
        }
        let id = e.id as usize;
        if id < self.entities().meta_len() {
            proof {
                self.lemma_wf_view();
            }
            if self.slot_is_alive(e.id) {
                return None;
            }
        }
        self.spawn_at(e);
        Some(EntityMut { world: self, entity: e })
    }

    /// For each `(entity, bundle)` in turn, fetches or spawns the entity and adds the
    /// bundle; hands back the entities whose slot held another live generation.
    pub fn insert_or_spawn_batch(&mut self, batch: Vec<(Entity, Vec<(ComponentId, V)>)>) -> (r: Vec<Entity>)
        requires
            old(self).wf(),
            forall|k: int| 0 <= k < batch@.len() ==> (#[trigger] batch@[k]).0.id < u32::MAX,
        ensures
            final(self).wf(),
            final(self)@ == old(self)@.batch_inserted(batch_view(batch@)),
            r@ == old(self)@.batch_rejected(batch_view(batch@)),
    {
        let ghost b = batch_view(batch@);
        let ghost w0 = self@;
        let mut rejected: Vec<Entity> = Vec::new();
        for item in it: batch
            invariant
                it.seq() == batch@,
                b == batch_view(batch@),
                forall|k: int| 0 <= k < batch@.len() ==> (#[trigger] batch@[k]).0.id < u32::MAX,
                self.wf(),
                self@ == w0.batch_inserted(b.take(it.index() as int)),
                rejected@ == w0.batch_rejected(b.take(it.index() as int)),
        {
            let (e, bundle) = item;
            let ghost bv = bundle@;
            proof {
                let i = it.index() as int;
                assert(b.take(i + 1).drop_last() =~= b.take(i));
                assert(b.take(i + 1).last() == (e, bv));
                assert(batch@[i].0.id < u32::MAX);
            }
            match self.get_or_spawn(e) {
                Some(em) => {
                    let mut em = em;
                    em.insert_bundle(bundle);
                },
                None => {
                    rejected.push(e);
                },
            }
        }
        proof {
            assert(b.take(b.len() as int) =~= b);
        }
        rejected
    }
}

/// `get_entity` finds an entity from the moment `spawn` hands it out until it is
/// despawned: the spawned entity is alive, a despawned one is not, and neither call
/// changes whether any other entity is alive.
pub proof fn lemma_spawn_despawn_liveness<V>(world: &World<V>, e: Entity, x: Entity)
    requires
        world.wf(),
    ensures
        world@.can_alloc() ==> world@.allocated(SlotState::Alive).alive(world@.next_entity()),
        world@.can_alloc() && x != world@.next_entity() ==> (world@.allocated(SlotState::Alive).alive(x)
            == world@.alive(x)),
        world@.can_despawn(e) ==> !world@.despawned_alone(e).alive(e),
        world@.can_despawn(e) && x != e ==> (world@.despawned_alone(e).alive(x) == world@.alive(x)),
{
    world.lemma_wf_view();
    let w = world@;
    if w.can_alloc() && w.free.len() > 0 {
        assert(w.free[w.free.len() - 1] == w.free.last());
    }
}

/// Despawning `e` alone: `e` is no longer alive, it is gone from its parent's children
/// (the others keep their order), and each of its children stays alive with no parent.
pub proof fn lemma_despawn_detaches<V>(world: &World<V>, e: Entity, c: Entity)
    requires
        world.wf(),
        world@.can_despawn(e),
    ensures
        !world@.despawned_alone(e).alive(e),
        match world@.parent_of(e) {
            Some(p) => p.id != e.id ==> world@.despawned_alone(e).children_of(p) == Some(
                world@.children_of(p).unwrap().filter(other_than(e)),
            ),
            None => true,
        },
        world@.children_or_empty(e).contains(c) && c.id != e.id && (match world@.parent_of(e) {
            Some(p) => p.id != e.id,
            None => true,
        }) ==> world@.despawned_alone(e).alive(c) && world@.despawned_alone(e).parent_of(c) == None::<Entity>,
{
    world.lemma_wf_view();
    let w = world@;
    let w1 = w.removed_from_parent(e);
    let cs = w1.children_or_empty(e);
    let w2 = w1.with_parents(cs, None);
    assert(w.despawned_alone(e) == w2.despawned(e));
    match w.parent_of(e) {
        Some(p) => {
            if p.id != e.id {
                assert(w2.data[p.id as int].children == w1.data[p.id as int].children);
            }
        },
        None => {},
    }
    let no_self_parent = match w.parent_of(e) {
        Some(p) => p.id != e.id,
        None => true,
    };
    if w.children_or_empty(e).contains(c) && c.id != e.id && no_self_parent {
        assert(cs == w.children_or_empty(e));
        let t = choose|t: int| 0 <= t < cs.len() && cs[t] == c;
        assert(w1.alive(cs[t]));
        assert(cs.map_values(|x: Entity| x.id as int)[t] == c.id as int);
        assert(cs.map_values(|x: Entity| x.id as int).contains(c.id as int));
    }
}

/// The entity that `Commands::spawn` reserves is fresh: it differs from every entity that
/// is alive or reserved; reserving it makes no entity alive or dead; and once the
/// reservations are flushed, when the queue is applied, it is alive.
pub proof fn lemma_reserved_entity_is_fresh<V>(world: &World<V>, x: Entity)
    requires
        world.wf(),
        world@.can_alloc(),
    ensures
        world@.alive(x) || (x.id < world@.metas.len() && world@.metas[x.id as int] == EntityMeta {
            generation: x.generation,
            state: SlotState::Reserved,
        }) ==> x != world@.next_entity(),
        world@.allocated(SlotState::Reserved).alive(x) == world@.alive(x),
        world@.allocated(SlotState::Reserved).flushed().alive(world@.next_entity()),
{
    world.lemma_wf_view();
    let w = world@;
    if w.free.len() > 0 {
        assert(w.free[w.free.len() - 1] == w.free.last());
    }
    let n = w.next_entity();
    let w2 = w.allocated(SlotState::Reserved);
    assert(n.id < w2.metas.len());
    assert(w2.flushed().metas[n.id as int] == flush_meta(w2.metas[n.id as int]));
}

/// Inserting children at `index` puts them at that position counted from the front: the
/// new list starts with the first `index` old children, then holds `cs` in order, then the
/// rest of the old children; an entity with no children list gets `cs` as its list. Each
/// of `cs` gets `e` as its parent.
pub proof fn lemma_insert_children_at_index<V>(w: WorldView<V>, e: Entity, index: int, cs: Seq<Entity>)
    requires
        e.id < w.data.len(),
        w.can_splice(e, index),
        0 <= index,
    ensures
        w.children_of(e) is None ==> w.inserted_children(e, index, cs).children_of(e) == Some(cs),
        w.children_of(e) is Some ==> {
            let l = w.children_of(e).unwrap();
            let n = w.inserted_children(e, index, cs).children_of(e).unwrap();
            &&& w.inserted_children(e, index, cs).children_of(e) is Some
            &&& n.len() == l.len() + cs.len()
            &&& forall|j: int| 0 <= j < index ==> #[trigger] n[j] == l[j]
            &&& forall|j: int| 0 <= j < cs.len() ==> #[trigger] n[index + j] == cs[j]
            &&& forall|j: int| index <= j < l.len() ==> #[trigger] n[j + cs.len()] == l[j]
        },
        forall|j: int| 0 <= j < cs.len() && cs[j].id < w.data.len() ==> #[trigger] w.inserted_children(e, index, cs).parent_of(cs[j])
            == Some(e),
{
    let w1 = w.with_parents(cs, Some(e));
    assert(w1.children_of(e) == w.children_of(e));
    assert forall|j: int| 0 <= j < cs.len() && cs[j].id < w.data.len() implies #[trigger] w.inserted_children(e, index, cs).parent_of(cs[j])
        == Some(e) by {
        assert(cs.map_values(|c: Entity| c.id as int)[j] == cs[j].id as int);
        assert(cs.map_values(|c: Entity| c.id as int).contains(cs[j].id as int));
        assert(w1.parent_of(cs[j]) == Some(e));
    }
}

/// Inserting one child at `index` puts it at that position counted from the front, after
/// the first `index` old children and before the rest; it gets `e` as its parent.
pub proof fn lemma_insert_child_at_index<V>(w: WorldView<V>, e: Entity, index: int, c: Entity)
    requires
        e.id < w.data.len(),
        c.id < w.data.len(),
        w.can_splice(e, index),
        0 <= index,
    ensures
        w.children_of(e) is None ==> w.inserted_child(e, index, c).children_of(e) == Some(seq![c]),
        w.children_of(e) is Some ==> {
            let l = w.children_of(e).unwrap();
            let n = w.inserted_child(e, index, c).children_of(e).unwrap();
            &&& n.len() == l.len() + 1
            &&& n[index] == c
            &&& forall|j: int| 0 <= j < index ==> #[trigger] n[j] == l[j]
            &&& forall|j: int| index <= j < l.len() ==> #[trigger] n[j + 1] == l[j]
        },
        w.inserted_child(e, index, c).parent_of(c) == Some(e),
{
}

/// Pushing children appends them after the old children, in order: the new list is the
/// old one followed by `cs` (or `cs` alone when there was no list), and each of `cs` gets
/// `e` as its parent.
pub proof fn lemma_push_children_appends<V>(w: WorldView<V>, e: Entity, cs: Seq<Entity>)
    requires
        e.id < w.data.len(),
    ensures
        ({
            let l = w.children_or_empty(e);
            let n = w.pushed_children(e, cs).children_of(e).unwrap();
            &&& w.pushed_children(e, cs).children_of(e) is Some
            &&& n.len() == l.len() + cs.len()
            &&& forall|j: int| 0 <= j < l.len() ==> #[trigger] n[j] == l[j]
            &&& forall|j: int| 0 <= j < cs.len() ==> #[trigger] n[l.len() + j] == cs[j]
        }),
        forall|j: int| 0 <= j < cs.len() && cs[j].id < w.data.len() ==> #[trigger] w.pushed_children(e, cs).parent_of(cs[j])
            == Some(e),
{
    let w1 = w.with_parents(cs, Some(e));
    assert(w1.children_of(e) == w.children_of(e));
    assert forall|j: int| 0 <= j < cs.len() && cs[j].id < w.data.len() implies #[trigger] w.pushed_children(e, cs).parent_of(cs[j])
        == Some(e) by {
        assert(cs.map_values(|c: Entity| c.id as int)[j] == cs[j].id as int);
        assert(cs.map_values(|c: Entity| c.id as int).contains(cs[j].id as int));
    }
}

/// Pushing one child appends it after the old children, which keep their order, and gives
/// it `e` as its parent.
pub proof fn lemma_push_child_appends<V>(w: WorldView<V>, e: Entity, c: Entity)
    requires
        e.id < w.data.len(),
        c.id < w.data.len(),
    ensures
        ({
            let l = w.children_or_empty(e);
            let n = w.pushed_child(e, c).children_of(e).unwrap();
            &&& w.pushed_child(e, c).children_of(e) is Some
            &&& n.len() == l.len() + 1
            &&& forall|j: int| 0 <= j < l.len() ==> #[trigger] n[j] == l[j]
            &&& n[l.len() as int] == c
        }),
        w.pushed_child(e, c).parent_of(c) == Some(e),
{
}

/// Removing children keeps exactly the old children that are not among `cs`, and each
/// removed child other than `e` itself loses its parent.
pub proof fn lemma_remove_children_keeps_others<V>(w: WorldView<V>, e: Entity, cs: Seq<Entity>, x: Entity)
    requires
        e.id < w.data.len(),
        w.children_of(e) is Some,
    ensures
        w.removed_children(e, cs).children_of(e) is Some,
        w.removed_children(e, cs).children_of(e).unwrap().contains(x) <==> w.children_of(e).unwrap().contains(x)
            && !cs.contains(x),
        w.children_of(e).unwrap().contains(x) && cs.contains(x) && x.id != e.id && x.id < w.data.len()
            ==> w.removed_children(e, cs).parent_of(x) == None::<Entity>,
{
    broadcast use vstd::seq_lib::group_filter_ensures;

    let l = w.children_of(e).unwrap();
    let kept = l.filter(not_in(cs));
    let gone = l.filter(is_in(cs));
    let w1 = w.with_children(e, Some(kept));
    assert(w.removed_children(e, cs) == w1.with_parents(gone, None));
    assert(w1.with_parents(gone, None).children_of(e) == Some(kept));
    if l.contains(x) && !cs.contains(x) {
        let t = choose|t: int| 0 <= t < l.len() && l[t] == x;
        assert(not_in(cs)(l[t]));
        l.lemma_filter_contains(not_in(cs), t);
    }
    if kept.contains(x) {
        l.lemma_filter_contains_rev(not_in(cs), x);
        let t = choose|t: int| 0 <= t < kept.len() && kept[t] == x;
        assert(not_in(cs)(kept[t]));
    }
    if l.contains(x) && cs.contains(x) && x.id != e.id && x.id < w.data.len() {
        assert(is_in(cs)(x));
        assert(gone.contains(x));
        let t = choose|t: int| 0 <= t < gone.len() && gone[t] == x;
        assert(gone.map_values(|c: Entity| c.id as int)[t] == x.id as int);
        assert(gone.map_values(|c: Entity| c.id as int).contains(x.id as int));
    }
}

/// Fetching or spawning `e` in its own slot: when its slot holds no other live generation,
/// `e` is alive afterwards; an `e` that was alive is left as it was with the whole world;
/// an entity of another slot stays alive or dead as it was.
pub proof fn lemma_get_or_spawn_makes_alive<V>(w: WorldView<V>, e: Entity, x: Entity)
    requires
        w.can_spawn_at(e),
    ensures
        w.got_or_spawned(e).alive(e),
        w.alive(e) ==> w.got_or_spawned(e) == w,
        x.id != e.id && x.id < w.metas.len() ==> (w.got_or_spawned(e).alive(x) == w.alive(x)),
{
    if !w.alive(e) && e.id >= w.metas.len() {
        let n = w.spawned_at(e);
        assert(n.metas[e.id as int] == EntityMeta { generation: e.generation, state: SlotState::Alive });
        if x.id != e.id && x.id < w.metas.len() {
            assert(n.metas[x.id as int] == w.metas[x.id as int]);
        }
    }
}

} // verus!
