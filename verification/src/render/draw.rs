//! Draw functions by id, the items of a render phase, and batching of consecutive items.
use std::collections::HashMap;
use std::ops::Range;
use vstd::prelude::*;

use crate::ecs::entity::Entity;
use crate::render::resource::CachedPipelineId;

verus! {

broadcast use vstd::std_specs::hash::group_hash_axioms;

/// Identifies a draw function: its index among those added.
#[derive(Copy, Clone, Debug, PartialEq, Eq, Hash, Structural)]
pub struct DrawFunctionId(pub usize);

/// The draw functions of a render phase, with the ids they are found by. A draw function
/// is found by the key of the type it was added for.
pub struct DrawFunctionsInternal<D> {
    pub draw_functions: Vec<D>,
    pub indices: HashMap<u64, DrawFunctionId>,
}

impl<D> DrawFunctionsInternal<D> {
    /// Every id handed out names a draw function.
    pub open spec fn wf(&self) -> bool {
        forall|k: u64| #[trigger] self.indices@.contains_key(k) ==> self.indices@[k].0 < self.draw_functions@.len()
    }

    pub fn new() -> (r: DrawFunctionsInternal<D>)
        ensures
            r.wf(),
            r.draw_functions@ == Seq::<D>::empty(),
            r.indices@ == Map::<u64, DrawFunctionId>::empty(),
    {
        DrawFunctionsInternal { draw_functions: Vec::new(), indices: HashMap::new() }
    }

    /// Adds `draw_function` for the type with key `type_key`.
    pub fn add(&mut self, type_key: u64, draw_function: D) -> (r: DrawFunctionId)
        requires
            old(self).wf(),
            old(self).draw_functions@.len() < usize::MAX,
        ensures
            final(self).wf(),
            r.0 == old(self).draw_functions@.len(),
            final(self).draw_functions@ == old(self).draw_functions@.push(draw_function),
            final(self).indices@ == old(self).indices@.insert(type_key, r),
    {
        self.add_with(type_key, draw_function)
    }

    /// Adds `draw_function` and lets it be found by the type with key `type_key`, which
    /// need not be its own.
    pub fn add_with(&mut self, type_key: u64, draw_function: D) -> (r: DrawFunctionId)
        requires
            old(self).wf(),
            old(self).draw_functions@.len() < usize::MAX,
        ensures
            final(self).wf(),
            r.0 == old(self).draw_functions@.len(),
            final(self).draw_functions@ == old(self).draw_functions@.push(draw_function),
            final(self).indices@ == old(self).indices@.insert(type_key, r),
    {
        self.draw_functions.push(draw_function);
        let id = DrawFunctionId(self.draw_functions.len() - 1);
        self.indices.insert(type_key, id);
        id
    }

    /// The draw function with id `id`, for exclusive use.
    pub fn get_mut(&mut self, id: DrawFunctionId) -> (r: Option<&mut D>)
        ensures
            match r {
                Some(f) => {
                    &&& id.0 < old(self).draw_functions@.len()
                    &&& *f == old(self).draw_functions@[id.0 as int]
                    &&& final(self).draw_functions@ == old(self).draw_functions@.update(id.0 as int, *final(f))
                },
                None => id.0 >= old(self).draw_functions@.len() && *final(self) == *old(self),
            },
            final(self).indices@ == old(self).indices@,
    {
        if id.0 < self.draw_functions.len() {
            Some(&mut self.draw_functions[id.0])
        } else {
            None
        }
    }

    /// The id of the draw function added for the type with key `type_key`.
    pub fn get_id(&self, type_key: u64) -> (r: Option<DrawFunctionId>)
        ensures
            r == self.indices@.get(type_key),
    {
        match self.indices.get(&type_key) {
            Some(id) => Some(*id),
            None => None,
        }
    }
}

/// The ids found by type key after draw functions are added to a new set for the type
/// keys `keys`, in order: the add at position `i` hands out id `i` and maps its key to it.
pub open spec fn ids_after_adds(keys: Seq<u64>) -> Map<u64, DrawFunctionId>
    decreases keys.len(),
{
    if keys.len() == 0 {
        Map::empty()
    } else {
        ids_after_adds(keys.drop_last()).insert(keys.last(), DrawFunctionId((keys.len() - 1) as usize))
    }
}

/// `get_id` finds, for a type key, the id of the latest draw function added for it, and
/// nothing for a key that nothing was added for: a new set maps no key, and each `add` or
/// `add_with` maps its key to the next id, replacing an earlier id of that key.
pub proof fn lemma_latest_add_wins(keys: Seq<u64>, t: u64, more: u64)
    requires
        keys.len() < usize::MAX,
    ensures
        ids_after_adds(Seq::empty()) == Map::<u64, DrawFunctionId>::empty(),
        ids_after_adds(keys.push(more)) == ids_after_adds(keys).insert(more, DrawFunctionId(keys.len() as usize)),
        !keys.contains(t) ==> !ids_after_adds(keys).contains_key(t),
        forall|i: int| 0 <= i < keys.len() && keys[i] == t && (forall|j: int| i < j < keys.len() ==> keys[j] != t)
            ==> #[trigger] ids_after_adds(keys).get(t) == Some(DrawFunctionId(i as usize)),
    decreases keys.len(),
{
    assert(keys.push(more).drop_last() =~= keys);
    if keys.len() > 0 {
        let prev = keys.drop_last();
        lemma_latest_add_wins(prev, t, keys.last());
        if !keys.contains(t) {
            assert(!prev.contains(t)) by {
                if prev.contains(t) {
                    let k = choose|k: int| 0 <= k < prev.len() && prev[k] == t;
                    assert(keys[k] == t);
                }
            }
        }
        assert forall|i: int| 0 <= i < keys.len() && keys[i] == t && (forall|j: int| i < j < keys.len() ==> keys[j] != t)
            implies #[trigger] ids_after_adds(keys).get(t) == Some(DrawFunctionId(i as usize)) by {
            if i < keys.len() - 1 {
                assert(keys.last() != t);
                assert(prev[i] == t);
                assert forall|j: int| i < j < prev.len() implies prev[j] != t by {
                    assert(keys[j] != t);
                }
                assert(ids_after_adds(prev).get(t) == Some(DrawFunctionId(i as usize)));
            }
        }
    }
}

/// Whether a render command could issue its draw calls.
#[derive(Copy, Clone, Debug, PartialEq, Eq, Structural)]
pub enum RenderCommandResult {
    Success,
    Failure,
}

/// Whether an item was batched into another.
#[derive(Copy, Clone, Debug, PartialEq, Eq, Structural)]
pub enum BatchResult {
    /// The other item was batched into this one.
    Success,
    /// The two items cannot be batched together.
    IncompatibleItems,
}

/// The range of the batch `a` grows into when the item of range `b` joins it: the two
/// must belong to the same entity and meet end to start, in either order.
pub open spec fn joined(a: Option<Range<u32>>, a_entity: Entity, b: Option<Range<u32>>, b_entity: Entity) -> Option<
    Range<u32>,
> {
    match (a, b) {
        (Some(x), Some(y)) => if a_entity != b_entity {
            None
        } else if x.end == y.start {
            Some(Range { start: x.start, end: y.end })
        } else if x.start == y.end {
            Some(Range { start: y.start, end: x.end })
        } else {
            None
        },
        _ => None,
    }
}

/// Two items batch exactly when both have a range, they belong to the same entity, and
/// one range ends where the other starts; the batched range then runs from the start of
/// the first of them to the end of the second.
pub proof fn lemma_batch_joins_meeting_ranges(a: Option<Range<u32>>, a_entity: Entity, b: Option<Range<u32>>, b_entity: Entity)
    ensures
        joined(a, a_entity, b, b_entity) is Some <==> a is Some && b is Some && a_entity == b_entity && (a.unwrap().end
            == b.unwrap().start || a.unwrap().start == b.unwrap().end),
        joined(a, a_entity, b, b_entity) is Some && a.unwrap().end == b.unwrap().start ==> joined(a, a_entity, b, b_entity)
            == Some(Range { start: a.unwrap().start, end: b.unwrap().end }),
        joined(a, a_entity, b, b_entity) is Some && a.unwrap().end != b.unwrap().start ==> joined(a, a_entity, b, b_entity)
            == Some(Range { start: b.unwrap().start, end: a.unwrap().end }),
{
}

/// Batches the item of range `other_range` into the one of range `self_range` when they
/// belong to the same entity and their ranges meet; the other item can then be dropped.
pub fn add_to_batch(
    self_entity: Entity,
    self_range: &mut Option<Range<u32>>,
    other_entity: Entity,
    other_range: &Option<Range<u32>>,
) -> (r: BatchResult)
    ensures
        match joined(*old(self_range), self_entity, *other_range, other_entity) {
            Some(j) => r == BatchResult::Success && *final(self_range) == Some(j),
            None => r == BatchResult::IncompatibleItems && *final(self_range) == *old(self_range),
        },
{
    match (self_range, other_range) {
        (Some(s), Some(o)) => {
            if self_entity == other_entity {
                if s.end == o.start {
                    s.end = o.end;
                    return BatchResult::Success;
                } else if s.start == o.end {
                    s.start = o.start;
                    return BatchResult::Success;
                }
            }
            BatchResult::IncompatibleItems
        },
        _ => BatchResult::IncompatibleItems,
    }
}

/// An item drawn in a render phase.
pub trait PhaseItem {
    /// The draw function that draws the item.
    fn draw_function(&self) -> DrawFunctionId;
}

/// A phase item that belongs to an entity.
pub trait EntityPhaseItem: PhaseItem {
    /// The entity the item belongs to.
    spec fn entity_of(&self) -> Entity;

    fn entity(&self) -> (r: Entity)
        ensures
            r == self.entity_of(),
    ;
}

/// A phase item drawn with a cached pipeline.
pub trait CachedPipelinePhaseItem: PhaseItem {
    fn cached_pipeline(&self) -> CachedPipelineId;
}

/// A phase item that can share one draw call with the items that follow it in its vertex
/// buffer.
pub trait BatchedPhaseItem: EntityPhaseItem + Sized {
    /// The item's range in the vertex buffer.
    spec fn range_of(&self) -> Option<Range<u32>>;

    /// The item's range in the vertex buffer.
    fn batch_range(&self) -> (r: &Option<Range<u32>>)
        ensures
            *r == self.range_of(),
    ;

    /// The item's range in the vertex buffer, to change; the item keeps its entity, and
    /// is left as it was when the range is.
    fn batch_range_mut(&mut self) -> (r: &mut Option<Range<u32>>)
        ensures
            *r == old(self).range_of(),
            final(self).range_of() == *final(r),
            final(self).entity_of() == old(self).entity_of(),
            *final(r) == *r ==> *final(self) == *old(self),
    ;

    /// Batches `other` into this item when they belong to the same entity and their
    /// ranges meet; see `add_to_batch`. The item keeps its entity, and is left as it was
    /// when the items are not batched.
    fn add_to_batch(&mut self, other: &Self) -> (r: BatchResult)
        ensures
            match joined(old(self).range_of(), old(self).entity_of(), other.range_of(), other.entity_of()) {
                Some(j) => r == BatchResult::Success && final(self).range_of() == Some(j),
                None => r == BatchResult::IncompatibleItems && final(self).range_of() == old(self).range_of(),
            },
            final(self).entity_of() == old(self).entity_of(),
            r == BatchResult::IncompatibleItems ==> *final(self) == *old(self),
    {
        let self_entity = self.entity();
        let other_entity = other.entity();
        let other_range = other.batch_range();
        add_to_batch(self_entity, self.batch_range_mut(), other_entity, other_range)
    }
}

} // verus!
