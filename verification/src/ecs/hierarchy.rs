//! Despawning an entity together with everything below it in the hierarchy, and the
//! laws that keep parent and children links in agreement.
use vstd::prelude::*;

use crate::ecs::entity::Entity;
use crate::ecs::entity_ref::{other_than, EntityMut};
use crate::ecs::world::{EntityView, World, WorldView};

verus! {

impl<V> WorldView<V> {
    /// The entities below `e` and `e` itself, children before parents, siblings in order.
    /// `fuel` bounds the depth that is looked at.
    pub open spec fn subtree(self, e: Entity, fuel: nat) -> Seq<Entity>
        decreases fuel, 0nat, 0nat,
    {
        if fuel == 0 {
            Seq::empty()
        } else {
            self.forest(self.children_or_empty(e), (fuel - 1) as nat).push(e)
        }
    }

    /// The subtrees of `cs`, one after another.
    pub open spec fn forest(self, cs: Seq<Entity>, fuel: nat) -> Seq<Entity>
        decreases fuel, 1nat, cs.len(),
    {
        if cs.len() == 0 {
            Seq::empty()
        } else {
            self.forest(cs.drop_last(), fuel) + self.subtree(cs.last(), fuel)
        }
    }

    /// Every entity below `e`, and `e`, is alive, within depth `fuel`.
    pub open spec fn tree_ok(self, e: Entity, fuel: nat) -> bool
        decreases fuel, 0nat, 0nat,
    {
        if fuel == 0 {
            false
        } else {
            self.alive(e) && self.forest_ok(self.children_or_empty(e), (fuel - 1) as nat)
        }
    }

    pub open spec fn forest_ok(self, cs: Seq<Entity>, fuel: nat) -> bool
        decreases fuel, 1nat, cs.len(),
    {
        if cs.len() == 0 {
            true
        } else {
            self.forest_ok(cs.drop_last(), fuel) && self.tree_ok(cs.last(), fuel)
        }
    }

    /// Below `e` there is a tree of alive entities, no deeper than `fuel`, in which no
    /// entity occurs twice.
    pub open spec fn is_tree(self, e: Entity, fuel: nat) -> bool {
        self.tree_ok(e, fuel) && self.subtree(e, fuel).no_duplicates()
    }

    /// A depth that no tree of distinct slots can exceed.
    pub open spec fn tree_fuel(self) -> nat {
        self.metas.len() + 1
    }

    /// Frees the entities of `es` one after another.
    pub open spec fn despawned_all(self, es: Seq<Entity>) -> WorldView<V>
        decreases es.len(),
    {
        if es.len() == 0 {
            self
        } else {
            self.despawned_all(es.drop_last()).despawned(es.last())
        }
    }

    /// `e` leaves its parent, then `e` and everything below it are freed, children first.
    pub open spec fn despawned_recursive(self, e: Entity) -> WorldView<V> {
        let w = self.removed_from_parent(e);
        w.despawned_all(w.subtree(e, w.tree_fuel()))
    }

    /// Despawning `e` with everything below it does not panic.
    pub open spec fn can_despawn_recursive(self, e: Entity) -> bool {
        &&& self.alive(e)
        &&& self.can_remove_from_parent(e)
        &&& self.removed_from_parent(e).is_tree(e, self.removed_from_parent(e).tree_fuel())
    }
}

/// Two worlds that agree on the slots of a subtree agree on that subtree.
pub proof fn lemma_tree_frame<V>(w: WorldView<V>, w2: WorldView<V>, e: Entity, fuel: nat)
    requires
        w.tree_ok(e, fuel),
        forall|y: Entity| #[trigger] w.subtree(e, fuel).contains(y) ==> agree_at(w, w2, y),
    ensures
        w2.tree_ok(e, fuel),
        w2.subtree(e, fuel) == w.subtree(e, fuel),
    decreases fuel, 0nat, 0nat,
{
    let cs = w.children_or_empty(e);
    let f = (fuel - 1) as nat;
    assert(w.subtree(e, fuel).contains(e)) by {
        assert(w.subtree(e, fuel)[w.subtree(e, fuel).len() - 1] == e);
    }
    assert(agree_at(w, w2, e));
    assert forall|y: Entity| #[trigger] w.forest(cs, f).contains(y) implies agree_at(w, w2, y) by {
        let t = choose|t: int| 0 <= t < w.forest(cs, f).len() && w.forest(cs, f)[t] == y;
        assert(w.subtree(e, fuel)[t] == y);
        assert(w.subtree(e, fuel).contains(y));
    }
    lemma_forest_frame(w, w2, cs, f);
}

pub proof fn lemma_forest_frame<V>(w: WorldView<V>, w2: WorldView<V>, cs: Seq<Entity>, fuel: nat)
    requires
        w.forest_ok(cs, fuel),
        forall|y: Entity| #[trigger] w.forest(cs, fuel).contains(y) ==> agree_at(w, w2, y),
    ensures
        w2.forest_ok(cs, fuel),
        w2.forest(cs, fuel) == w.forest(cs, fuel),
    decreases fuel, 1nat, cs.len(),
{
    if cs.len() > 0 {
        let a = w.forest(cs.drop_last(), fuel);
        let b = w.subtree(cs.last(), fuel);
        assert forall|y: Entity| #[trigger] a.contains(y) implies agree_at(w, w2, y) by {
            let t = choose|t: int| 0 <= t < a.len() && a[t] == y;
            assert(w.forest(cs, fuel)[t] == y);
            assert(w.forest(cs, fuel).contains(y));
        }
        assert forall|y: Entity| #[trigger] b.contains(y) implies agree_at(w, w2, y) by {
            let t = choose|t: int| 0 <= t < b.len() && b[t] == y;
            assert(w.forest(cs, fuel)[a.len() + t] == y);
            assert(w.forest(cs, fuel).contains(y));
        }
        lemma_forest_frame(w, w2, cs.drop_last(), fuel);
        lemma_tree_frame(w, w2, cs.last(), fuel);
    }
}

/// Two worlds agree on the state and children of the slot of `y`.
pub open spec fn agree_at<V>(w: WorldView<V>, w2: WorldView<V>, y: Entity) -> bool {
    &&& y.id < w.metas.len()
    &&& y.id < w2.metas.len()
    &&& w2.metas[y.id as int] == w.metas[y.id as int]
    &&& w2.children_of(y) == w.children_of(y)
}

/// Every entity of a subtree is alive.
pub proof fn lemma_tree_alive<V>(w: WorldView<V>, e: Entity, fuel: nat)
    requires
        w.tree_ok(e, fuel),
    ensures
        forall|y: Entity| #[trigger] w.subtree(e, fuel).contains(y) ==> w.alive(y),
    decreases fuel, 0nat, 0nat,
{
    let cs = w.children_or_empty(e);
    let f = (fuel - 1) as nat;
    lemma_forest_alive(w, cs, f);
    assert forall|y: Entity| #[trigger] w.subtree(e, fuel).contains(y) implies w.alive(y) by {
        let t = choose|t: int| 0 <= t < w.subtree(e, fuel).len() && w.subtree(e, fuel)[t] == y;
        if t < w.forest(cs, f).len() {
            assert(w.forest(cs, f)[t] == y);
            assert(w.forest(cs, f).contains(y));
        }
    }
}

pub proof fn lemma_forest_alive<V>(w: WorldView<V>, cs: Seq<Entity>, fuel: nat)
    requires
        w.forest_ok(cs, fuel),
    ensures
        forall|y: Entity| #[trigger] w.forest(cs, fuel).contains(y) ==> w.alive(y),
    decreases fuel, 1nat, cs.len(),
{
    if cs.len() > 0 {
        let a = w.forest(cs.drop_last(), fuel);
        let b = w.subtree(cs.last(), fuel);
        lemma_forest_alive(w, cs.drop_last(), fuel);
        lemma_tree_alive(w, cs.last(), fuel);
        assert forall|y: Entity| #[trigger] w.forest(cs, fuel).contains(y) implies w.alive(y) by {
            let t = choose|t: int| 0 <= t < w.forest(cs, fuel).len() && w.forest(cs, fuel)[t] == y;
            if t < a.len() {
                assert(a[t] == y);
                assert(a.contains(y));
            } else {
                assert(b[t - a.len()] == y);
                assert(b.contains(y));
            }
        }
    }
}

/// The subtree of each child is part of a checked forest.
pub proof fn lemma_forest_prefix<V>(w: WorldView<V>, cs: Seq<Entity>, i: int, fuel: nat)
    requires
        0 <= i < cs.len(),
        w.forest_ok(cs, fuel),
    ensures
        w.tree_ok(cs[i], fuel),
        w.forest(cs.take(i + 1), fuel) == w.forest(cs.take(i), fuel) + w.subtree(cs[i], fuel),
        w.forest(cs, fuel) == w.forest(cs.take(i + 1), fuel) + w.forest(cs.skip(i + 1), fuel),
    decreases cs.len(),
{
    assert(cs.take(i + 1).drop_last() =~= cs.take(i));
    if i == cs.len() - 1 {
        assert(cs.take(i + 1) =~= cs);
        assert(cs.skip(i + 1) =~= Seq::<Entity>::empty());
        assert(w.forest(cs, fuel) + Seq::<Entity>::empty() =~= w.forest(cs, fuel));
    } else {
        lemma_forest_prefix(w, cs.drop_last(), i, fuel);
        assert(cs.drop_last().take(i + 1) =~= cs.take(i + 1));
        assert(cs.drop_last().take(i) =~= cs.take(i));
        assert(cs.skip(i + 1).drop_last() =~= cs.drop_last().skip(i + 1));
        assert(cs.skip(i + 1).last() == cs.last());
        assert(w.forest(cs, fuel) =~= w.forest(cs.take(i + 1), fuel) + w.forest(cs.skip(i + 1), fuel));
    }
}

/// Freeing entities in two batches is freeing them all.
pub proof fn lemma_despawned_all_append<V>(w: WorldView<V>, a: Seq<Entity>, b: Seq<Entity>)
    ensures
        w.despawned_all(a + b) == w.despawned_all(a).despawned_all(b),
    decreases b.len(),
{
    if b.len() == 0 {
        assert(a + b =~= a);
    } else {
        assert((a + b).drop_last() =~= a + b.drop_last());
        lemma_despawned_all_append(w, a, b.drop_last());
    }
}

/// Freeing entities leaves alone the slots none of them occupies.
pub proof fn lemma_despawned_all_frame<V>(w: WorldView<V>, es: Seq<Entity>, j: int)
    requires
        0 <= j < w.metas.len(),
        w.data.len() == w.metas.len(),
        forall|k: int| 0 <= k < es.len() ==> (#[trigger] es[k]).id < w.metas.len() && es[k].id != j,
    ensures
        w.despawned_all(es).metas.len() == w.metas.len(),
        w.despawned_all(es).data.len() == w.data.len(),
        w.despawned_all(es).metas[j] == w.metas[j],
        w.despawned_all(es).data[j] == w.data[j],
    decreases es.len(),
{
    if es.len() > 0 {
        lemma_despawned_all_frame(w, es.drop_last(), j);
    }
}

/// Changing the children of a slot that is not freed commutes with freeing.
pub proof fn lemma_despawned_all_children<V>(
    w: WorldView<V>,
    es: Seq<Entity>,
    e: Entity,
    c: Option<Seq<Entity>>,
)
    requires
        e.id < w.metas.len(),
        w.data.len() == w.metas.len(),
        forall|k: int| 0 <= k < es.len() ==> (#[trigger] es[k]).id < w.metas.len() && es[k].id != e.id,
    ensures
        w.with_children(e, c).despawned_all(es) == w.despawned_all(es).with_children(e, c),
    decreases es.len(),
{
    if es.len() > 0 {
        lemma_despawned_all_children(w, es.drop_last(), e, c);
        lemma_despawned_all_frame(w, es.drop_last(), e.id as int);
        let x = es.last();
        let u = w.despawned_all(es.drop_last());
        assert(es[es.len() - 1] == x);
        assert(u.with_children(e, c).components_of(x) == u.components_of(x));
        assert(u.with_children(e, c).despawned(x) =~= u.despawned(x).with_children(e, c));
    }
}

/// Frees `e` and everything below it, children first.
fn despawn_tree<V>(world: &mut World<V>, e: Entity, Ghost(fuel): Ghost<nat>)
    requires
        old(world).wf(),
        old(world)@.is_tree(e, fuel),
    ensures
        final(world).wf(),
        final(world)@ == old(world)@.despawned_all(old(world)@.subtree(e, fuel)),
    decreases fuel,
{
    let ghost w0 = world@;
    let ghost f = (fuel - 1) as nat;
    proof {
        world.lemma_wf_view();
        lemma_tree_alive(w0, e, fuel);
    }
    let ch = world.take_children(e);
    let ghost w1 = world@;
    let ghost cs = w0.children_or_empty(e);
    let ghost whole = w0.subtree(e, fuel);
    proof {
        assert(whole == w0.forest(cs, f).push(e));
        assert(whole.contains(e)) by {
            assert(whole[whole.len() - 1] == e);
        }
    }
    match ch {
        Some(v) => {
            let mut i: usize = 0;
            proof {
                assert(v@ == cs);
                assert(cs.take(0) =~= Seq::<Entity>::empty());
            }
            while i < v.len()
                invariant
                    i <= v.len(),
                    v@ == cs,
                    fuel > 0,
                    f == fuel - 1,
                    w0.is_tree(e, fuel),
                    whole == w0.subtree(e, fuel),
                    whole == w0.forest(cs, f).push(e),
                    w0.forest_ok(cs, f),
                    w0.data.len() == w0.metas.len(),
                    w1 == w0.with_children(e, None),
                    forall|y: Entity| #[trigger] whole.contains(y) ==> w0.alive(y),
                    world.wf(),
                    world@ == w1.despawned_all(w0.forest(cs.take(i as int), f)),
                decreases v.len() - i,
            {
                let c = v[i];
                proof {
                    lemma_forest_prefix(w0, cs, i as int, f);
                    let done = w0.forest(cs.take(i as int), f);
                    let sub = w0.subtree(c, f);
                    let rest = w0.forest(cs.skip(i as int + 1), f);
                    assert(whole =~= done + sub + rest + seq![e]);
                    // every slot of the child's subtree is untouched so far
                    assert forall|y: Entity| #[trigger] sub.contains(y) implies agree_at(w0, world@, y) by {
                        let t = choose|t: int| 0 <= t < sub.len() && sub[t] == y;
                        assert(whole[done.len() + t] == y);
                        assert(whole.contains(y));
                        assert(w0.alive(y));
                        assert forall|k: int| 0 <= k < done.len() implies (#[trigger] done[k]).id < w1.metas.len() && done[k].id != y.id by {
                            assert(whole[k] == done[k]);
                            assert(whole.contains(done[k]));
                            assert(w0.alive(done[k]));
                            assert(k != done.len() + t);
                            assert(whole[k] != whole[done.len() + t]);
                        }
                        assert(y != e) by {
                            assert(whole[whole.len() - 1] == e);
                            assert(done.len() + t != whole.len() - 1);
                        }
                        lemma_despawned_all_frame(w1, done, y.id as int);
                    }
                    lemma_tree_frame(w0, world@, c, f);
                    // the child's subtree has no duplicates
                    assert(sub.no_duplicates()) by {
                        assert forall|a: int, b: int| 0 <= a < sub.len() && 0 <= b < sub.len() && a != b
                            implies sub[a] != sub[b] by {
                            assert(whole[done.len() + a] == sub[a]);
                            assert(whole[done.len() + b] == sub[b]);
                        }
                    }
                }
                despawn_tree(world, c, Ghost(f));
                proof {
                    lemma_despawned_all_append(w1, w0.forest(cs.take(i as int), f), w0.subtree(c, f));
                }
                i = i + 1;
            }
            proof {
                assert(cs.take(cs.len() as int) =~= cs);
            }
        },
        None => {
            proof {
                assert(w0.forest(cs, f) == Seq::<Entity>::empty());
                assert(w0.with_children(e, None) =~= w0);
            }
        },
    }
    proof {
        let done = w0.forest(cs, f);
        assert forall|k: int| 0 <= k < done.len() implies (#[trigger] done[k]).id < w0.metas.len() && done[k].id != e.id by {
            assert(whole[k] == done[k]);
            assert(whole.contains(done[k]));
            assert(whole[whole.len() - 1] == e);
            assert(k != whole.len() - 1);
        }
        lemma_despawned_all_children(w0, done, e, None);
        lemma_despawned_all_frame(w0, done, e.id as int);
        let u = w0.despawned_all(done);
        assert(u.with_children(e, None).components_of(e) == u.components_of(e));
        assert(u.with_children(e, None).despawned(e) =~= u.despawned(e));
        assert(whole.drop_last() =~= done);
        assert(u.alive(e));
    }
    world.despawn_self(e);
}

impl<'w, V> EntityMut<'w, V> {
    /// Detaches this entity from its parent, then frees it and everything below it,
    /// children first.
    pub fn despawn_recursive(self)
        requires
            self.world.wf(),
            self.world@.can_despawn_recursive(self.entity),
        ensures
            final(self.world).wf(),
            final(self.world)@ == old(self.world)@.despawned_recursive(self.entity),
    {
        let mut this = self;
        let e = this.entity;
        this.remove_from_parent();
        let ghost w1 = this.world@;
        despawn_tree(this.world, e, Ghost(w1.tree_fuel()));
    }
}

impl<V> World<V> {
    /// Despawns `e` with everything below it when `e` is alive; tells whether it was.
    pub fn despawn_recursive(&mut self, e: Entity) -> (r: bool)
        requires
            old(self).wf(),
            old(self)@.alive(e) ==> old(self)@.can_despawn_recursive(e),
        ensures
            final(self).wf(),
            r == old(self)@.alive(e),
            final(self)@ == if r {
                old(self)@.despawned_recursive(e)
            } else {
                old(self)@
            },
    {
        match self.get_entity_mut(e) {
            Some(em) => {
                em.despawn_recursive();
                true
            },
            None => false,
        }
    }
}

impl<V> WorldView<V> {
    /// Parent and children links agree: an alive entity with a parent is in the children
    /// list of that parent, which is alive; and every entity in the children list of an
    /// alive entity is alive and has that entity as its parent.
    pub open spec fn links_agree(self) -> bool {
        &&& forall|x: Entity| #[trigger] self.alive(x) && self.parent_of(x).is_some() ==> {
            &&& self.alive(self.parent_of(x).unwrap())
            &&& self.children_or_empty(self.parent_of(x).unwrap()).contains(x)
        }
        &&& forall|p: Entity, x: Entity| #[trigger] self.alive(p) && #[trigger] self.children_or_empty(p).contains(x)
            ==> self.alive(x) && self.parent_of(x) == Some(p)
    }
}

/// Two alive entities in the same slot are the same entity.
proof fn lemma_alive_same_slot<V>(w: WorldView<V>, a: Entity, b: Entity)
    requires
        w.alive(a),
        w.alive(b),
        a.id == b.id,
    ensures
        a == b,
{
}

/// Pushing a child that has no parent keeps parent and children links in agreement.
pub proof fn lemma_push_child_keeps_links<V>(w: WorldView<V>, e: Entity, c: Entity)
    requires
        w.data.len() == w.metas.len(),
        w.links_agree(),
        w.alive(e),
        w.alive(c),
        e != c,
        w.parent_of(c).is_none(),
    ensures
        w.pushed_child(e, c).links_agree(),
        w.pushed_child(e, c).parent_of(c) == Some(e),
        w.pushed_child(e, c).children_or_empty(e) == w.children_or_empty(e).push(c),
{
    let w2 = w.pushed_child(e, c);
    assert(e.id != c.id);
    assert(!w.children_or_empty(e).contains(c));
    assert(w2.children_or_empty(e) =~= w.children_or_empty(e).push(c));
    assert forall|x: Entity| #[trigger] w2.alive(x) && w2.parent_of(x).is_some() implies {
        &&& w2.alive(w2.parent_of(x).unwrap())
        &&& w2.children_or_empty(w2.parent_of(x).unwrap()).contains(x)
    } by {
        assert(w.alive(x));
        if x.id == c.id {
            lemma_alive_same_slot(w, x, c);
            assert(w2.children_or_empty(e)[w2.children_or_empty(e).len() - 1] == c);
        } else {
            let p = w.parent_of(x).unwrap();
            assert(w2.parent_of(x) == Some(p));
            assert(w.children_or_empty(p).contains(x));
            if p.id == e.id {
                lemma_alive_same_slot(w, p, e);
                let k = choose|k: int| 0 <= k < w.children_or_empty(e).len() && w.children_or_empty(e)[k] == x;
                assert(w2.children_or_empty(e)[k] == x);
            } else {
                assert(w2.children_or_empty(p) == w.children_or_empty(p));
            }
        }
    }
    assert forall|p: Entity, x: Entity| #[trigger] w2.alive(p) && #[trigger] w2.children_or_empty(p).contains(x)
        implies w2.alive(x) && w2.parent_of(x) == Some(p) by {
        assert(w.alive(p));
        if p.id == e.id {
            lemma_alive_same_slot(w, p, e);
            let k = choose|k: int| 0 <= k < w2.children_or_empty(e).len() && w2.children_or_empty(e)[k] == x;
            if k == w.children_or_empty(e).len() {
                assert(x == c);
            } else {
                assert(w.children_or_empty(e)[k] == x);
                assert(w.children_or_empty(e).contains(x));
                assert(x != c);
                assert(w.alive(x));
                if x.id == c.id {
                    lemma_alive_same_slot(w, x, c);
                }
            }
        } else {
            assert(w2.children_or_empty(p) == w.children_or_empty(p));
            assert(w.alive(x) && w.parent_of(x) == Some(p));
            if x.id == c.id {
                lemma_alive_same_slot(w, x, c);
            }
        }
    }
}

/// Removing a child that was pushed onto a children list undoes the push.
pub proof fn lemma_remove_child_undoes_push_child<V>(w: WorldView<V>, e: Entity, c: Entity)
    requires
        w.data.len() == w.metas.len(),
        e.id < w.metas.len(),
        c.id < w.metas.len(),
        e.id != c.id,
        w.parent_of(c).is_none(),
        w.children_of(e).is_some(),
        !w.children_of(e).unwrap().contains(c),
    ensures
        w.pushed_child(e, c).removed_child(e, c) == w,
{
    let l = w.children_of(e).unwrap();
    let lc = l.push(c);
    let w2 = w.pushed_child(e, c);
    assert(w2.children_of(e) == Some(lc)) by {
        assert(l + seq![c] =~= lc);
    }
    assert(lc.contains(c)) by {
        assert(lc[l.len() as int] == c);
    }
    lemma_filter_push_other(l, c);
    let w3 = w2.with_children(e, Some(l));
    assert(w2.removed_child(e, c) == w3.with_parent(c, None));
    lemma_undo_links(w, e, c);
}

/// Setting the children of `e` back and dropping the parent of `c` after a push gives
/// back the world before it.
proof fn lemma_undo_links<V>(w: WorldView<V>, e: Entity, c: Entity)
    requires
        w.data.len() == w.metas.len(),
        e.id < w.metas.len(),
        c.id < w.metas.len(),
        e.id != c.id,
        w.parent_of(c).is_none(),
        w.children_of(e).is_some(),
    ensures
        w.pushed_child(e, c).with_children(e, w.children_of(e)).with_parent(c, None) == w,
{
    let w4 = w.pushed_child(e, c).with_children(e, w.children_of(e)).with_parent(c, None);
    assert forall|i: int| 0 <= i < w.data.len() implies #[trigger] w4.data[i] == w.data[i] by {
        if i == e.id as int {
            assert(w4.data[i] =~= w.data[i]);
        } else if i == c.id as int {
            assert(w4.data[i] =~= w.data[i]);
        }
    }
    assert(w4.data =~= w.data);
    assert(w4 =~= w);
}

/// Removing an entity from its parent undoes pushing it onto that parent.
pub proof fn lemma_remove_from_parent_undoes_push_child<V>(w: WorldView<V>, e: Entity, c: Entity)
    requires
        w.data.len() == w.metas.len(),
        e.id < w.metas.len(),
        c.id < w.metas.len(),
        e.id != c.id,
        w.parent_of(c).is_none(),
        w.children_of(e).is_some(),
        !w.children_of(e).unwrap().contains(c),
    ensures
        w.pushed_child(e, c).removed_from_parent(c) == w,
{
    let l = w.children_of(e).unwrap();
    let w1 = w.with_parent(c, Some(e));
    let w2 = w.pushed_child(e, c);
    assert(w1.children_of(e) == Some(l));
    assert(l + seq![c] =~= l.push(c));
    assert(w2 == w1.with_children(e, Some(l.push(c))));
    assert(w2.parent_of(c) == Some(e));
    assert(w2.children_of(e) == Some(l.push(c)));
    lemma_filter_push_other(l, c);
    let w3 = w2.with_children(e, Some(l));
    assert(w2.removed_from_parent(c) == w3.with_parent(c, None));
    lemma_undo_links(w, e, c);
}

/// Removing a child keeps parent and children links in agreement.
pub proof fn lemma_remove_child_keeps_links<V>(w: WorldView<V>, e: Entity, c: Entity)
    requires
        w.data.len() == w.metas.len(),
        w.links_agree(),
        w.alive(e),
        w.children_of(e).is_some(),
    ensures
        w.removed_child(e, c).links_agree(),
        !w.removed_child(e, c).children_or_empty(e).contains(c),
{
    broadcast use vstd::seq_lib::group_filter_ensures;

    let l = w.children_of(e).unwrap();
    let f = l.filter(other_than(c));
    let w1 = w.with_children(e, Some(f));
    let w2 = w.removed_child(e, c);
    assert(!f.contains(c)) by {
        if f.contains(c) {
            let k = choose|k: int| 0 <= k < f.len() && f[k] == c;
            assert(other_than(c)(f[k]));
        }
    }
    assert(w.children_or_empty(e) == l);
    if l.contains(c) {
        assert(w.children_or_empty(e).contains(c));
        assert(w.alive(c) && w.parent_of(c) == Some(e));
    }
    assert forall|x: Entity| #[trigger] w2.alive(x) && w2.parent_of(x).is_some() implies {
        &&& w2.alive(w2.parent_of(x).unwrap())
        &&& w2.children_or_empty(w2.parent_of(x).unwrap()).contains(x)
    } by {
        assert(w.alive(x));
        let q = w2.parent_of(x).unwrap();
        if l.contains(c) && x.id == c.id {
        } else {
            assert(w.parent_of(x) == Some(q));
            assert(w.children_or_empty(q).contains(x));
            if q.id == e.id {
                lemma_alive_same_slot(w, q, e);
                assert(x != c);
                assert(f.contains(x)) by {
                    lemma_filter_keeps_other(l, c, x);
                }
            }
        }
    }
    assert forall|p: Entity, x: Entity| #[trigger] w2.alive(p) && #[trigger] w2.children_or_empty(p).contains(x)
        implies w2.alive(x) && w2.parent_of(x) == Some(p) by {
        assert(w.alive(p));
        if p.id == e.id {
            lemma_alive_same_slot(w, p, e);
            l.lemma_filter_contains_rev(other_than(c), x);
            assert(x != c);
            assert(w.children_or_empty(e).contains(x));
            assert(w.alive(x) && w.parent_of(x) == Some(e));
            if l.contains(c) && x.id == c.id {
                lemma_alive_same_slot(w, x, c);
            }
        } else {
            assert(w.children_or_empty(p).contains(x));
            assert(w.alive(x) && w.parent_of(x) == Some(p));
            if l.contains(c) && x.id == c.id {
                lemma_alive_same_slot(w, x, c);
            }
        }
    }
}

/// Detaching an entity from its parent keeps parent and children links in agreement: it
/// is removing the entity from its parent's children.
pub proof fn lemma_remove_from_parent_keeps_links<V>(w: WorldView<V>, c: Entity)
    requires
        w.data.len() == w.metas.len(),
        w.links_agree(),
        w.alive(c),
    ensures
        w.removed_from_parent(c).links_agree(),
        w.removed_from_parent(c).parent_of(c).is_none(),
        w.parent_of(c) matches Some(p) ==> w.removed_from_parent(c) == w.removed_child(p, c),
{
    match w.parent_of(c) {
        Some(p) => {
            assert(w.alive(p) && w.children_or_empty(p).contains(c));
            assert(w.children_of(p).is_some());
            assert(w.removed_from_parent(c) == w.removed_child(p, c));
            lemma_remove_child_keeps_links(w, p, c);
        },
        None => {},
    }
}

/// Despawning an entity alone keeps parent and children links in agreement: it leaves
/// its parent, and its children are left without a parent.
pub proof fn lemma_despawn_keeps_links<V>(w: WorldView<V>, e: Entity)
    requires
        w.data.len() == w.metas.len(),
        w.links_agree(),
        w.alive(e),
    ensures
        w.despawned_alone(e).links_agree(),
{
    lemma_remove_from_parent_keeps_links(w, e);
    let w1 = w.removed_from_parent(e);
    let cs = w1.children_or_empty(e);
    let w2 = w1.with_parents(cs, None);
    let w3 = w2.despawned(e);
    assert(w3 == w.despawned_alone(e));
    assert(w1.data.len() == w1.metas.len());
    assert(w1.metas == w.metas);
    assert(w1.alive(e));
    // which slots lose their parent link
    assert forall|i: int| 0 <= i < w1.data.len() implies #[trigger] w2.data[i] == if cs.map_values(
        |c: Entity| c.id as int,
    ).contains(i) {
        EntityView { components: w1.data[i].components, parent: None::<Entity>, children: w1.data[i].children }
    } else {
        w1.data[i]
    } by {
    }
    // every child of `e` is alive with parent `e`
    assert forall|k: int| 0 <= k < cs.len() implies w1.alive(#[trigger] cs[k]) && w1.parent_of(cs[k]) == Some(e) by {
        assert(cs.contains(cs[k]));
    }
    // in `w2` no alive entity has `e` as its parent
    assert forall|x: Entity| #[trigger] w2.alive(x) implies w2.parent_of(x) != Some(e) by {
        assert(w1.alive(x));
        if w1.parent_of(x) == Some(e) {
            assert(w1.children_or_empty(e).contains(x));
            let k = choose|k: int| 0 <= k < cs.len() && cs[k] == x;
            assert(cs.map_values(|c: Entity| c.id as int)[k] == x.id as int);
            assert(cs.map_values(|c: Entity| c.id as int).contains(x.id as int));
        } else {
            if cs.map_values(|c: Entity| c.id as int).contains(x.id as int) {
            }
        }
    }
    assert forall|x: Entity| #[trigger] w3.alive(x) && w3.parent_of(x).is_some() implies {
        &&& w3.alive(w3.parent_of(x).unwrap())
        &&& w3.children_or_empty(w3.parent_of(x).unwrap()).contains(x)
    } by {
        assert(x.id != e.id);
        assert(w2.alive(x));
        let q = w3.parent_of(x).unwrap();
        assert(w2.parent_of(x) == Some(q));
        assert(!cs.map_values(|c: Entity| c.id as int).contains(x.id as int));
        assert(w1.parent_of(x) == Some(q));
        assert(w1.alive(x));
        assert(w1.alive(q) && w1.children_or_empty(q).contains(x));
        assert(q != e);
        if q.id == e.id {
            lemma_alive_same_slot(w1, q, e);
        }
        assert(w3.children_or_empty(q) == w1.children_or_empty(q));
    }
    assert forall|p: Entity, x: Entity| #[trigger] w3.alive(p) && #[trigger] w3.children_or_empty(p).contains(x)
        implies w3.alive(x) && w3.parent_of(x) == Some(p) by {
        assert(p.id != e.id);
        assert(w1.alive(p));
        assert(w3.children_or_empty(p) == w1.children_or_empty(p));
        assert(w1.alive(x) && w1.parent_of(x) == Some(p));
        if p == e {
        }
        assert(p != e);
        let ids = cs.map_values(|c: Entity| c.id as int);
        if ids.contains(x.id as int) {
            let k = choose|k: int| 0 <= k < ids.len() && #[trigger] ids[k] == x.id as int;
            assert(cs[k].id == x.id);
            lemma_alive_same_slot(w1, cs[k], x);
            assert(w1.parent_of(x) == Some(e));
        }
        if x.id == e.id {
            lemma_alive_same_slot(w1, x, e);
        }
    }
}

/// Pushing children that have no parent keeps parent and children links in agreement.
pub proof fn lemma_push_children_keeps_links<V>(w: WorldView<V>, e: Entity, cs: Seq<Entity>)
    requires
        w.data.len() == w.metas.len(),
        w.links_agree(),
        w.alive(e),
        w.all_alive(cs),
        forall|k: int| 0 <= k < cs.len() ==> w.parent_of(#[trigger] cs[k]).is_none(),
        !cs.contains(e),
    ensures
        w.pushed_children(e, cs).links_agree(),
        w.pushed_children(e, cs).children_or_empty(e) == w.children_or_empty(e) + cs,
{
    let ids = cs.map_values(|c: Entity| c.id as int);
    let w1 = w.with_parents(cs, Some(e));
    let w2 = w.pushed_children(e, cs);
    let l = w.children_or_empty(e);
    assert(w2 == w1.with_children(e, w1.appended_children(e, cs)));
    assert forall|i: int| 0 <= i < w.data.len() implies #[trigger] w1.data[i] == if ids.contains(i) {
        EntityView { components: w.data[i].components, parent: Some(e), children: w.data[i].children }
    } else {
        w.data[i]
    } by {
    }
    // a slot among the children's holds one of them
    assert forall|x: Entity| w.alive(x) && #[trigger] ids.contains(x.id as int) implies cs.contains(x) by {
        let k = choose|k: int| 0 <= k < ids.len() && #[trigger] ids[k] == x.id as int;
        assert(cs[k].id == x.id);
        assert(w.alive(cs[k]));
        lemma_alive_same_slot(w, cs[k], x);
    }
    assert forall|k: int| 0 <= k < cs.len() implies #[trigger] ids.contains(cs[k].id as int) by {
        assert(ids[k] == cs[k].id as int);
    }
    assert(!ids.contains(e.id as int)) by {
        if ids.contains(e.id as int) {
            assert(cs.contains(e));
        }
    }
    assert(w2.children_or_empty(e) =~= l + cs);
    // no child of `e`, nor of any other entity, is among `cs`: they had no parent
    assert forall|p: Entity, x: Entity| w.alive(p) && #[trigger] w.children_or_empty(p).contains(x)
        implies !cs.contains(x) by {
        assert(w.alive(x) && w.parent_of(x) == Some(p));
        if cs.contains(x) {
            let k = choose|k: int| 0 <= k < cs.len() && cs[k] == x;
            assert(w.parent_of(cs[k]).is_none());
        }
    }
    assert forall|x: Entity| #[trigger] w2.alive(x) && w2.parent_of(x).is_some() implies {
        &&& w2.alive(w2.parent_of(x).unwrap())
        &&& w2.children_or_empty(w2.parent_of(x).unwrap()).contains(x)
    } by {
        assert(w.alive(x));
        if ids.contains(x.id as int) {
            assert(cs.contains(x));
            let k = choose|k: int| 0 <= k < cs.len() && cs[k] == x;
            assert((l + cs)[l.len() + k] == x);
        } else {
            let q = w.parent_of(x).unwrap();
            assert(w2.parent_of(x) == Some(q));
            assert(w.children_or_empty(q).contains(x));
            if q.id == e.id {
                lemma_alive_same_slot(w, q, e);
                let k = choose|k: int| 0 <= k < l.len() && l[k] == x;
                assert((l + cs)[k] == x);
            } else {
                assert(w2.children_or_empty(q) == w.children_or_empty(q));
            }
        }
    }
    assert forall|p: Entity, x: Entity| #[trigger] w2.alive(p) && #[trigger] w2.children_or_empty(p).contains(x)
        implies w2.alive(x) && w2.parent_of(x) == Some(p) by {
        assert(w.alive(p));
        if p.id == e.id {
            lemma_alive_same_slot(w, p, e);
            let k = choose|k: int| 0 <= k < (l + cs).len() && (l + cs)[k] == x;
            if k < l.len() {
                assert(l[k] == x);
                assert(w.children_or_empty(e).contains(x));
                assert(w.alive(x) && w.parent_of(x) == Some(e));
                assert(!cs.contains(x));
                if ids.contains(x.id as int) {
                    assert(cs.contains(x));
                }
            } else {
                assert(cs[k - l.len()] == x);
                assert(cs.contains(x));
                assert(ids.contains(x.id as int));
                assert(w.alive(x));
            }
        } else {
            assert(w2.children_or_empty(p) == w.children_or_empty(p));
            assert(w.alive(x) && w.parent_of(x) == Some(p));
            assert(!cs.contains(x));
            if ids.contains(x.id as int) {
                assert(cs.contains(x));
            }
        }
    }
}

/// Filtering out `c` keeps every other entity of the list.
proof fn lemma_filter_keeps_other(l: Seq<Entity>, c: Entity, x: Entity)
    requires
        l.contains(x),
        x != c,
    ensures
        l.filter(other_than(c)).contains(x),
    decreases l.len(),
{
    let d = l.drop_last();
    d.lemma_filter_push(l.last(), other_than(c));
    assert(d.push(l.last()) =~= l);
    if l.last() == x {
        assert(l.filter(other_than(c)) == d.filter(other_than(c)).push(x));
        assert(d.filter(other_than(c)).push(x)[d.filter(other_than(c)).len() as int] == x);
    } else {
        let k = choose|k: int| 0 <= k < l.len() && l[k] == x;
        assert(k < d.len());
        assert(d[k] == x);
        lemma_filter_keeps_other(d, c, x);
        let fd = d.filter(other_than(c));
        let j = choose|j: int| 0 <= j < fd.len() && fd[j] == x;
        if other_than(c)(l.last()) {
            assert(fd.push(l.last())[j] == x);
        }
    }
}

/// Filtering `c` out of a list that did not hold it, with `c` pushed, gives the list.
proof fn lemma_filter_push_other(l: Seq<Entity>, c: Entity)
    requires
        !l.contains(c),
    ensures
        l.push(c).filter(other_than(c)) == l,
{
    l.lemma_filter_push(c, other_than(c));
    lemma_filter_keeps_all(l, c);
}

/// Filtering out an entity that is not there keeps the list as it is.
proof fn lemma_filter_keeps_all(l: Seq<Entity>, c: Entity)
    requires
        !l.contains(c),
    ensures
        l.filter(other_than(c)) == l,
    decreases l.len(),
{
    if l.len() > 0 {
        let d = l.drop_last();
        assert(!d.contains(c)) by {
            if d.contains(c) {
                let k = choose|k: int| 0 <= k < d.len() && d[k] == c;
                assert(l[k] == c);
            }
        }
        lemma_filter_keeps_all(d, c);
        assert(l.last() != c) by {
            assert(l[l.len() - 1] == l.last());
        }
        assert(d.push(l.last()) =~= l);
        d.lemma_filter_push(l.last(), other_than(c));
    }
}

} // verus!
