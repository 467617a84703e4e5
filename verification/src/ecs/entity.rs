//! Entity identifiers and the allocator that hands them out.
use vstd::prelude::*;

verus! {

/// Identifies a component type registered with a world.
pub type ComponentId = u32;

/// Identifies a resource type registered with a world.
pub type ResourceId = u32;

/// A lightweight handle to an entity: a slot index and the generation of that slot.
#[derive(Clone, Copy, PartialEq, Eq, Debug, Hash, Structural)]
pub struct Entity {
    pub id: u32,
    pub generation: u32,
}

impl Entity {
    /// An entity handle for slot `id` in its first generation.
    pub fn from_raw(id: u32) -> (e: Entity)
        ensures
            e.id == id,
            e.generation == 0,
    {
        Entity { id, generation: 0 }
    }

    pub fn id(&self) -> (r: u32)
        ensures
            r == self.id,
    {
        self.id
    }

    pub fn generation(&self) -> (r: u32)
        ensures
            r == self.generation,
    {
        self.generation
    }
}

/// The life-cycle state of an entity slot.
#[derive(Clone, Copy, PartialEq, Eq, Debug, Structural)]
pub enum SlotState {
    Free,
    Reserved,
    Alive,
}

/// Generation and state of one entity slot.
#[derive(Clone, Copy, PartialEq, Eq, Debug, Structural)]
pub struct EntityMeta {
    pub generation: u32,
    pub state: SlotState,
}

/// The generation a slot moves to when its entity is freed.
pub open spec fn next_generation(g: u32) -> u32 {
    if g == u32::MAX {
        0
    } else {
        (g + 1) as u32
    }
}

/// Number of slots in the `Alive` state.
pub open spec fn count_alive(metas: Seq<EntityMeta>) -> nat
    decreases metas.len(),
{
    if metas.len() == 0 {
        0
    } else {
        count_alive(metas.drop_last()) + if metas.last().state == SlotState::Alive {
            1nat
        } else {
            0nat
        }
    }
}

pub proof fn lemma_count_alive_push(metas: Seq<EntityMeta>, m: EntityMeta)
    ensures
        count_alive(metas.push(m)) == count_alive(metas) + if m.state == SlotState::Alive {
            1nat
        } else {
            0nat
        },
{
    assert(metas.push(m).drop_last() =~= metas);
}

pub proof fn lemma_count_alive_le(metas: Seq<EntityMeta>)
    ensures
        count_alive(metas) <= metas.len(),
    decreases metas.len(),
{
    if metas.len() > 0 {
        lemma_count_alive_le(metas.drop_last());
    }
}

pub proof fn lemma_count_alive_update(metas: Seq<EntityMeta>, i: int, m: EntityMeta)
    requires
        0 <= i < metas.len(),
    ensures
        count_alive(metas.update(i, m)) + (if metas[i].state == SlotState::Alive {
            1nat
        } else {
            0nat
        }) == count_alive(metas) + (if m.state == SlotState::Alive {
            1nat
        } else {
            0nat
        }),
    decreases metas.len(),
{
    if i == metas.len() - 1 {
        assert(metas.update(i, m).drop_last() =~= metas.drop_last());
    } else {
        lemma_count_alive_update(metas.drop_last(), i, m);
        assert(metas.update(i, m).drop_last() =~= metas.drop_last().update(i, m));
    }
}

/// A slot counts as alive in `count_alive` exactly when its state is `Alive`.
pub proof fn lemma_count_alive_pos(metas: Seq<EntityMeta>, i: int)
    requires
        0 <= i < metas.len(),
        metas[i].state == SlotState::Alive,
    ensures
        count_alive(metas) >= 1,
    decreases metas.len(),
{
    if i < metas.len() - 1 {
        lemma_count_alive_pos(metas.drop_last(), i);
    }
}

/// Keeps every slot id other than `id`.
pub open spec fn other_id(id: u32) -> spec_fn(u32) -> bool {
    |x: u32| x != id
}

/// The slot ids from `lo` up to, not including, `hi`.
pub open spec fn id_range(lo: nat, hi: nat) -> Seq<u32> {
    Seq::new((hi - lo) as nat, |k: int| (lo + k) as u32)
}

/// A filtered sequence holds only elements of the sequence it was taken from, and no
/// duplicates when that sequence has none.
pub proof fn lemma_filter_sub<A>(s: Seq<A>, p: spec_fn(A) -> bool)
    ensures
        forall|x: A| #[trigger] s.filter(p).contains(x) ==> s.contains(x),
        s.no_duplicates() ==> s.filter(p).no_duplicates(),
    decreases s.len(),
{
    reveal(Seq::filter);
    if s.len() > 0 {
        let d = s.drop_last();
        lemma_filter_sub(d, p);
        assert forall|x: A| #[trigger] s.filter(p).contains(x) implies s.contains(x) by {
            let f = s.filter(p);
            let t = choose|t: int| 0 <= t < f.len() && f[t] == x;
            if t < d.filter(p).len() {
                assert(d.filter(p)[t] == x);
                assert(d.filter(p).contains(x));
                let q = choose|q: int| 0 <= q < d.len() && d[q] == x;
                assert(s[q] == x);
            } else {
                assert(s[s.len() - 1] == x);
            }
        }
        if s.no_duplicates() {
            assert(d.no_duplicates());
            if p(s.last()) {
                assert(!d.filter(p).contains(s.last())) by {
                    if d.filter(p).contains(s.last()) {
                        assert(d.contains(s.last()));
                        let q = choose|q: int| 0 <= q < d.len() && d[q] == s.last();
                        assert(s[q] == s[s.len() - 1]);
                    }
                }
            }
        }
    }
}

/// A reserved slot becomes alive; other slots stay as they are.
pub open spec fn flush_meta(m: EntityMeta) -> EntityMeta {
    if m.state == SlotState::Reserved {
        EntityMeta { generation: m.generation, state: SlotState::Alive }
    } else {
        m
    }
}

pub open spec fn flushed_metas(metas: Seq<EntityMeta>) -> Seq<EntityMeta> {
    metas.map_values(|m: EntityMeta| flush_meta(m))
}

/// Hands out entity handles, recycling freed slots with a bumped generation.
pub struct Entities {
    metas: Vec<EntityMeta>,
    free: Vec<u32>,
    len: usize,
}

impl Entities {
    pub closed spec fn metas(&self) -> Seq<EntityMeta> {
        self.metas@
    }

    /// Free slot ids, the last one is reused first.
    pub closed spec fn free_ids(&self) -> Seq<u32> {
        self.free@
    }

    pub open spec fn alive(&self, e: Entity) -> bool {
        &&& e.id < self.metas().len()
        &&& self.metas()[e.id as int] == EntityMeta { generation: e.generation, state: SlotState::Alive }
    }

    pub closed spec fn wf(&self) -> bool {
        &&& self.metas@.len() <= u32::MAX
        &&& self.len == count_alive(self.metas@)
        &&& self.free@.no_duplicates()
        &&& forall|k: int|
            0 <= k < self.free@.len() ==> (#[trigger] self.free@[k]) < self.metas@.len()
                && self.metas@[self.free@[k] as int].state == SlotState::Free
        &&& forall|i: int|
            0 <= i < self.metas@.len() && (#[trigger] self.metas@[i]).state == SlotState::Free
                ==> self.free@.contains(i as u32)
    }

    /// What the allocator's invariant says about its slot table and free list.
    pub proof fn lemma_wf(&self)
        requires
            self.wf(),
        ensures
            self.metas().len() <= u32::MAX,
            self.free_ids().no_duplicates(),
            forall|k: int|
                0 <= k < self.free_ids().len() ==> (#[trigger] self.free_ids()[k]) < self.metas().len()
                    && self.metas()[self.free_ids()[k] as int].state == SlotState::Free,
            forall|i: int|
                0 <= i < self.metas().len() && (#[trigger] self.metas()[i]).state == SlotState::Free
                    ==> self.free_ids().contains(i as u32),
    {
    }

    /// The handle that the next allocation hands out.
    pub open spec fn next_entity(&self) -> Entity {
        if self.free_ids().len() > 0 {
            let id = self.free_ids().last();
            Entity { id, generation: self.metas()[id as int].generation }
        } else {
            Entity { id: self.metas().len() as u32, generation: 0 }
        }
    }

    /// Whether another slot can still be handed out.
    pub open spec fn can_alloc(&self) -> bool {
        self.free_ids().len() > 0 || self.metas().len() < u32::MAX
    }

    pub fn new() -> (r: Entities)
        ensures
            r.wf(),
            r.metas() == Seq::<EntityMeta>::empty(),
            r.free_ids() == Seq::<u32>::empty(),
    {
        Entities { metas: Vec::new(), free: Vec::new(), len: 0 }
    }

    /// Number of alive entities.
    pub fn len(&self) -> (r: usize)
        requires
            self.wf(),
        ensures
            r == count_alive(self.metas()),
    {
        self.len
    }

    pub fn is_empty(&self) -> (r: bool)
        requires
            self.wf(),
        ensures
            r == (count_alive(self.metas()) == 0),
    {
        self.len == 0
    }

    /// Number of slots ever handed out, alive or not.
    pub fn meta_len(&self) -> (r: usize)
        ensures
            r == self.metas().len(),
    {
        self.metas.len()
    }

    pub fn contains(&self, e: Entity) -> (r: bool)
        ensures
            r == self.alive(e),
    {
        let id = e.id as usize;
        if id < self.metas.len() {
            let m = self.metas[id];
            m.generation == e.generation && m.state == SlotState::Alive
        } else {
            false
        }
    }

    /// Takes a slot for a new handle in state `state` (alive or reserved).
    pub fn alloc_with(&mut self, state: SlotState) -> (e: Entity)
        requires
            old(self).wf(),
            old(self).can_alloc(),
            state != SlotState::Free,
        ensures
            final(self).wf(),
            e == old(self).next_entity(),
            final(self).metas() == (if old(self).free_ids().len() > 0 {
                old(self).metas().update(
                    e.id as int,
                    EntityMeta { generation: e.generation, state },
                )
            } else {
                old(self).metas().push(EntityMeta { generation: 0, state })
            }),
            final(self).free_ids() == (if old(self).free_ids().len() > 0 {
                old(self).free_ids().drop_last()
            } else {
                old(self).free_ids()
            }),
    {
        let ghost old_metas = self.metas@;
        let new_meta;
        let e = match self.free.pop() {
            Some(id) => {
                let g = self.metas[id as usize].generation;
                new_meta = EntityMeta { generation: g, state };
                self.metas.set(id as usize, new_meta);
                proof {
                    lemma_count_alive_update(old_metas, id as int, new_meta);
                    lemma_count_alive_le(self.metas@);
                    assert forall|k: int| 0 <= k < self.free@.len() implies (#[trigger] self.free@[k]) < self.metas@.len()
                        && self.metas@[self.free@[k] as int].state == SlotState::Free by {
                        assert(old(self).free@[k] == self.free@[k]);
                        assert(old(self).free@.last() == id);
                        assert(self.free@[k] != id);
                    }
                    assert forall|i: int|
                        0 <= i < self.metas@.len() && (#[trigger] self.metas@[i]).state == SlotState::Free
                        implies self.free@.contains(i as u32) by {
                        assert(i != id);
                        assert(old(self).free@.contains(i as u32));
                        let k = choose|k: int| 0 <= k < old(self).free@.len() && old(self).free@[k] == i as u32;
                        assert(k != old(self).free@.len() - 1);
                        assert(self.free@[k] == i as u32);
                    }
                }
                Entity { id, generation: g }
            },
            None => {
                let id = self.metas.len() as u32;
                new_meta = EntityMeta { generation: 0, state };
                self.metas.push(new_meta);
                proof {
                    lemma_count_alive_push(old_metas, new_meta);
                    lemma_count_alive_le(old_metas);
                    assert forall|i: int|
                        0 <= i < self.metas@.len() && (#[trigger] self.metas@[i]).state == SlotState::Free
                        implies self.free@.contains(i as u32) by {
                        assert(i < old_metas.len());
                        assert(old_metas[i] == self.metas@[i]);
                    }
                }
                Entity { id, generation: 0 }
            },
        };
        if state == SlotState::Alive {
            self.len = self.len + 1;
        }
        e
    }

    /// Marks an alive entity's slot free and bumps its generation.
    pub fn free(&mut self, e: Entity)
        requires
            old(self).wf(),
            old(self).alive(e),
        ensures
            final(self).wf(),
            final(self).metas() == old(self).metas().update(
                e.id as int,
                EntityMeta { generation: next_generation(e.generation), state: SlotState::Free },
            ),
            final(self).free_ids() == old(self).free_ids().push(e.id),
    {
        let ghost old_metas = self.metas@;
        let g = e.generation.wrapping_add(1);
        let m = EntityMeta { generation: g, state: SlotState::Free };
        self.metas.set(e.id as usize, m);
        proof {
            lemma_count_alive_update(old_metas, e.id as int, m);
            assert(!old(self).free@.contains(e.id)) by {
                if old(self).free@.contains(e.id) {
                    let k = choose|k: int| 0 <= k < old(self).free@.len() && old(self).free@[k] == e.id;
                    assert(old_metas[old(self).free@[k] as int].state == SlotState::Free);
                }
            }
        }
        self.free.push(e.id);
        self.len = self.len - 1;
        proof {
            assert forall|k: int| 0 <= k < self.free@.len() implies (#[trigger] self.free@[k]) < self.metas@.len()
                && self.metas@[self.free@[k] as int].state == SlotState::Free by {
                if k < old(self).free@.len() {
                    assert(self.free@[k] == old(self).free@[k]);
                }
            }
            assert forall|i: int|
                0 <= i < self.metas@.len() && (#[trigger] self.metas@[i]).state == SlotState::Free
                implies self.free@.contains(i as u32) by {
                if i == e.id {
                    assert(self.free@[self.free@.len() - 1] == e.id);
                } else {
                    assert(old(self).free@.contains(i as u32));
                    let k = choose|k: int| 0 <= k < old(self).free@.len() && old(self).free@[k] == i as u32;
                    assert(self.free@[k] == i as u32);
                }
            }
        }
    }

    /// Turns every reserved slot into an alive one.
    pub fn flush(&mut self)
        requires
            old(self).wf(),
        ensures
            final(self).wf(),
            final(self).metas() == flushed_metas(old(self).metas()),
            final(self).free_ids() == old(self).free_ids(),
    {
        let n = self.metas.len();
        let mut i: usize = 0;
        while i < n
            invariant
                n == self.metas@.len(),
                n == old(self).metas@.len(),
                i <= n,
                self.free@ == old(self).free@,
                self.len == count_alive(self.metas@),
                self.metas@.len() <= u32::MAX,
                self.free@.no_duplicates(),
                forall|j: int| 0 <= j < i ==> #[trigger] self.metas@[j] == flush_meta(old(self).metas@[j]),
                forall|j: int| i <= j < n ==> #[trigger] self.metas@[j] == old(self).metas@[j],
                forall|k: int|
                    0 <= k < self.free@.len() ==> (#[trigger] self.free@[k]) < self.metas@.len()
                        && self.metas@[self.free@[k] as int].state == SlotState::Free,
                forall|j: int|
                    0 <= j < self.metas@.len() && (#[trigger] self.metas@[j]).state == SlotState::Free
                        ==> self.free@.contains(j as u32),
            decreases n - i,
        {
            let m = self.metas[i];
            if m.state == SlotState::Reserved {
                let nm = EntityMeta { generation: m.generation, state: SlotState::Alive };
                proof {
                    lemma_count_alive_update(self.metas@, i as int, nm);
                    lemma_count_alive_le(self.metas@.update(i as int, nm));
                }
                self.metas.set(i, nm);
                self.len = self.len + 1;
            }
            i = i + 1;
        }
        proof {
            assert(self.metas@ =~= flushed_metas(old(self).metas@));
        }
    }

    /// Whether `e` can be made alive in place: its slot does not hold another live
    /// generation.
    pub open spec fn can_alloc_at(&self, e: Entity) -> bool {
        &&& e.id < u32::MAX
        &&& !(e.id < self.metas().len() && self.metas()[e.id as int].state == SlotState::Alive
            && self.metas()[e.id as int].generation != e.generation)
    }

    /// Slot table after `e` is made alive in place.
    pub open spec fn metas_at(&self, e: Entity) -> Seq<EntityMeta> {
        let m = EntityMeta { generation: e.generation, state: SlotState::Alive };
        if e.id < self.metas().len() {
            self.metas().update(e.id as int, m)
        } else {
            self.metas() + Seq::new(
                (e.id - self.metas().len()) as nat,
                |k: int| EntityMeta { generation: 0, state: SlotState::Free },
            ) + seq![m]
        }
    }

    /// Free list after `e` is made alive in place.
    pub open spec fn free_at(&self, e: Entity) -> Seq<u32> {
        if e.id < self.metas().len() {
            self.free_ids().filter(other_id(e.id))
        } else {
            self.free_ids() + id_range(self.metas().len(), e.id as nat)
        }
    }

    /// Makes `e` alive in its own slot, growing the slot table when needed; slots skipped
    /// over become free.
    pub fn alloc_at(&mut self, e: Entity)
        requires
            old(self).wf(),
            old(self).can_alloc_at(e),
            !old(self).alive(e),
        ensures
            final(self).wf(),
            final(self).metas() == old(self).metas_at(e),
            final(self).free_ids() == old(self).free_at(e),
    {
        let ghost old_metas = self.metas@;
        let m = EntityMeta { generation: e.generation, state: SlotState::Alive };
        let id = e.id as usize;
        if id < self.metas.len() {
            let old_metas_id_state = self.metas[id].state;
            // drop the id from the free list
            let mut kept: Vec<u32> = Vec::new();
            let mut i: usize = 0;
            while i < self.free.len()
                invariant
                    i <= self.free@.len(),
                    self.free@ == old(self).free@,
                    kept@ == self.free@.take(i as int).filter(other_id(e.id)),
                decreases self.free.len() - i,
            {
                proof {
                    reveal(Seq::filter);
                    assert(self.free@.take(i as int + 1).drop_last() =~= self.free@.take(i as int));
                }
                if self.free[i] != e.id {
                    kept.push(self.free[i]);
                }
                i = i + 1;
            }
            proof {
                assert(self.free@.take(self.free@.len() as int) =~= self.free@);
                lemma_count_alive_update(old_metas, id as int, m);
                lemma_count_alive_le(old_metas.update(id as int, m));
            }
            self.free = kept;
            self.metas.set(id, m);
            if old_metas_id_state != SlotState::Alive {
                self.len = self.len + 1;
            }
            proof {
                let f0 = old(self).free@;
                let f1 = self.free@;
                lemma_filter_sub(f0, other_id(e.id));
                assert forall|x: u32| f1.contains(x) <==> (f0.contains(x) && x != e.id) by {
                    if f1.contains(x) {
                        let t = choose|t: int| 0 <= t < f1.len() && f1[t] == x;
                        f0.lemma_filter_pred(other_id(e.id), t);
                    }
                    if f0.contains(x) && x != e.id {
                        let t = choose|t: int| 0 <= t < f0.len() && f0[t] == x;
                        f0.lemma_filter_contains(other_id(e.id), t);
                    }
                }
                assert(f1.no_duplicates()) by {
                    lemma_filter_sub(f0, other_id(e.id));
                }
                assert forall|k: int| 0 <= k < f1.len() implies (#[trigger] f1[k]) < self.metas@.len()
                    && self.metas@[f1[k] as int].state == SlotState::Free by {
                    assert(f1.contains(f1[k]));
                    let t = choose|t: int| 0 <= t < f0.len() && f0[t] == f1[k];
                }
                assert forall|j: int| 0 <= j < self.metas@.len() && (#[trigger] self.metas@[j]).state == SlotState::Free
                    implies f1.contains(j as u32) by {
                    assert(j != id);
                    assert(old_metas[j] == self.metas@[j]);
                    assert(f0.contains(j as u32));
                }
            }
        } else {
            let start = self.metas.len();
            let ghost f0 = self.free@;
            let mut j: usize = start;
            while j < id
                invariant
                    start == old_metas.len(),
                    start <= j <= id,
                    id < u32::MAX,
                    self.metas@ == old_metas + Seq::new(
                        (j - start) as nat,
                        |k: int| EntityMeta { generation: 0, state: SlotState::Free },
                    ),
                    self.free@ == f0 + id_range(start as nat, j as nat),
                    self.len == count_alive(self.metas@),
                decreases id - j,
            {
                let fm = EntityMeta { generation: 0, state: SlotState::Free };
                proof {
                    lemma_count_alive_push(self.metas@, fm);
                }
                self.metas.push(fm);
                self.free.push(j as u32);
                proof {
                    assert(self.metas@ =~= old_metas + Seq::new(
                        (j + 1 - start) as nat,
                        |k: int| EntityMeta { generation: 0, state: SlotState::Free },
                    ));
                    assert(self.free@ =~= f0 + id_range(start as nat, (j + 1) as nat));
                }
                j = j + 1;
            }
            proof {
                lemma_count_alive_push(self.metas@, m);
                lemma_count_alive_le(self.metas@);
            }
            self.metas.push(m);
            self.len = self.len + 1;
            proof {
                let ext = Seq::new((id - start) as nat, |k: int| EntityMeta { generation: 0, state: SlotState::Free });
                assert(self.metas@ =~= old_metas + ext + seq![m]);
                let r = id_range(start as nat, id as nat);
                assert(self.free@.no_duplicates()) by {
                    assert forall|a: int, b: int| 0 <= a < self.free@.len() && 0 <= b < self.free@.len() && a != b
                        implies self.free@[a] != self.free@[b] by {
                        if a < f0.len() && b < f0.len() {
                        } else if a >= f0.len() && b >= f0.len() {
                        } else if a < f0.len() {
                            assert(f0[a] < start);
                        } else {
                            assert(f0[b] < start);
                        }
                    }
                }
                assert forall|k: int| 0 <= k < self.free@.len() implies (#[trigger] self.free@[k]) < self.metas@.len()
                    && self.metas@[self.free@[k] as int].state == SlotState::Free by {
                    if k < f0.len() {
                        assert(self.free@[k] == f0[k]);
                    } else {
                        assert(self.free@[k] == r[k - f0.len()]);
                    }
                }
                assert forall|t: int| 0 <= t < self.metas@.len() && (#[trigger] self.metas@[t]).state == SlotState::Free
                    implies self.free@.contains(t as u32) by {
                    if t < start {
                        assert(old_metas[t] == self.metas@[t]);
                        assert(f0.contains(t as u32));
                        let q = choose|q: int| 0 <= q < f0.len() && f0[q] == t as u32;
                        assert(self.free@[q] == t as u32);
                    } else {
                        assert(t < id);
                        assert(self.free@[f0.len() + (t - start)] == t as u32);
                    }
                }
            }
        }
    }

    /// Generation and state of slot `id`.
    pub fn slot_meta(&self, id: u32) -> (r: EntityMeta)
        requires
            id < self.metas().len(),
        ensures
            r == self.metas()[id as int],
    {
        self.metas[id as usize]
    }

    pub fn slot_state(&self, id: u32) -> (r: SlotState)
        requires
            id < self.metas().len(),
        ensures
            r == self.metas()[id as int].state,
    {
        self.metas[id as usize].state
    }
}

/// A freed handle is not handed out again by the next allocation: it reuses the slot, in
/// the next generation.
pub proof fn lemma_free_then_alloc_new_generation(a: Entities, b: Entities, e: Entity)
    requires
        a.alive(e),
        b.metas() == a.metas().update(
            e.id as int,
            EntityMeta { generation: next_generation(e.generation), state: SlotState::Free },
        ),
        b.free_ids() == a.free_ids().push(e.id),
    ensures
        b.next_entity() == (Entity { id: e.id, generation: next_generation(e.generation) }),
        b.next_entity() != e,
        !b.alive(e),
{
}

} // verus!
