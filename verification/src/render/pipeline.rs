//! The core 2D pipeline's bookkeeping: clear colors by render target, and the render
//! phase of the active 2D camera.
use std::collections::HashMap;
use vstd::prelude::*;
use vstd::std_specs::iter::IteratorSpec;

use std::ops::Range;

use crate::ecs::command::{Commands, GetOrSpawn, Insert, WorldCommand};
use crate::ecs::entity::{ComponentId, Entity};
use crate::render::draw::{
    add_to_batch, joined, BatchResult, BatchedPhaseItem, CachedPipelinePhaseItem, DrawFunctionId,
    EntityPhaseItem, PhaseItem,
};
use crate::render::resource::CachedPipelineId;

verus! {

broadcast use vstd::std_specs::hash::group_hash_axioms;

/// The color each render target is cleared with, by the target's id.
pub struct RenderTargetClearColors<C> {
    colors: HashMap<u64, C>,
}

impl<C> View for RenderTargetClearColors<C> {
    type V = Map<u64, C>;

    closed spec fn view(&self) -> Map<u64, C> {
        self.colors@
    }
}

impl<C> Default for RenderTargetClearColors<C> {
    fn default() -> (r: RenderTargetClearColors<C>)
        ensures
            r@ == Map::<u64, C>::empty(),
    {
        RenderTargetClearColors { colors: HashMap::new() }
    }
}

impl<C> RenderTargetClearColors<C> {
    pub fn get(&self, target: u64) -> (r: Option<&C>)
        ensures
            match r {
                Some(c) => self@.contains_key(target) && *c == self@[target],
                None => !self@.contains_key(target),
            },
    {
        self.colors.get(&target)
    }

    pub fn insert(&mut self, target: u64, color: C)
        ensures
            final(self)@ == old(self)@.insert(target, color),
    {
        self.colors.insert(target, color);
    }
}

/// An item of the transparent 2D phase, drawn in the order of `sort_key`.
pub struct Transparent2d<K> {
    pub sort_key: K,
    pub entity: Entity,
    pub pipeline: CachedPipelineId,
    pub draw_function: DrawFunctionId,
    /// The item's range in the vertex buffer.
    pub batch_range: Option<Range<u32>>,
}

impl<K> PhaseItem for Transparent2d<K> {
    fn draw_function(&self) -> (r: DrawFunctionId)
        ensures
            r == self.draw_function,
    {
        self.draw_function
    }
}

impl<K> EntityPhaseItem for Transparent2d<K> {
    open spec fn entity_of(&self) -> Entity {
        self.entity
    }

    fn entity(&self) -> (r: Entity)
        ensures
            r == self.entity,
    {
        self.entity
    }
}

impl<K> CachedPipelinePhaseItem for Transparent2d<K> {
    fn cached_pipeline(&self) -> (r: CachedPipelineId)
        ensures
            r == self.pipeline,
    {
        self.pipeline
    }
}

impl<K> BatchedPhaseItem for Transparent2d<K> {
    open spec fn range_of(&self) -> Option<Range<u32>> {
        self.batch_range
    }

    fn batch_range(&self) -> (r: &Option<Range<u32>>)
        ensures
            *r == self.batch_range,
    {
        &self.batch_range
    }

    fn batch_range_mut(&mut self) -> (r: &mut Option<Range<u32>>)
        ensures
            *r == old(self).batch_range,
            final(self).batch_range == *final(r),
            final(self).entity == old(self).entity,
    {
        &mut self.batch_range
    }

    /// Batches `other` into this item when they belong to the same entity and their
    /// ranges meet.
    fn add_to_batch(&mut self, other: &Self) -> (r: BatchResult)
        ensures
            match joined(old(self).batch_range, old(self).entity, other.batch_range, other.entity) {
                Some(j) => r == BatchResult::Success && final(self).batch_range == Some(j),
                None => r == BatchResult::IncompatibleItems && final(self).batch_range == old(self).batch_range,
            },
            final(self).entity == old(self).entity,
            final(self).pipeline == old(self).pipeline,
            final(self).draw_function == old(self).draw_function,
            final(self).sort_key == old(self).sort_key,
    {
        add_to_batch(self.entity, &mut self.batch_range, other.entity, &other.batch_range)
    }
}

/// Gives the active 2D camera, if there is one, its render phase in the render world:
/// queues fetching or spawning the camera's entity there and inserting `phase` as its
/// component `phase_id`.
pub fn extract_core_pipeline_camera_phases<V>(
    commands: &mut Commands<'_, '_, V>,
    active_2d: Option<Entity>,
    phase_id: ComponentId,
    phase: V,
)
    ensures
        final(commands).queue@ == match active_2d {
            Some(e) => old(commands).queue@.push(WorldCommand::GetOrSpawn(GetOrSpawn { entity: e })).push(
                WorldCommand::Insert(Insert { entity: e, id: phase_id, component: phase }),
            ),
            None => old(commands).queue@,
        },
        *final(commands).world == *old(commands).world,
        *final(final(commands).queue) == *final(old(commands).queue),
        *final(final(commands).world) == *final(old(commands).world),
{
    if let Some(entity) = active_2d {
        commands.get_or_spawn(entity).insert(phase_id, phase);
    }
}

/// The color target `t` is cleared with: its own clear color if it has one, else `default`.
pub open spec fn target_color<C>(colors: Map<u64, C>, default: C, t: u64) -> C {
    if colors.contains_key(t) {
        colors[t]
    } else {
        default
    }
}

/// The color a view is cleared with: that of its camera's target when it has a camera,
/// else `default`.
pub open spec fn view_color<C>(colors: Map<u64, C>, default: C, target: Option<u64>) -> C {
    match target {
        Some(t) => target_color(colors, default, t),
        None => default,
    }
}

/// A target with a clear color of its own is cleared with that color, any other with the
/// default; a view without a camera is cleared with the default.
pub proof fn lemma_clear_color_choice<C>(colors: Map<u64, C>, default: C, t: u64)
    ensures
        colors.contains_key(t) ==> view_color(colors, default, Some(t)) == colors[t],
        !colors.contains_key(t) ==> view_color(colors, default, Some(t)) == default,
        view_color(colors, default, None) == default,
        colors.contains_key(t) ==> target_color(colors, default, t) == colors[t],
        !colors.contains_key(t) ==> target_color(colors, default, t) == default,
{
}

/// Whether some view renders to target `t` through its camera.
fn cleared_by_view(view_targets: &[Option<u64>], t: u64) -> (r: bool)
    ensures
        r == view_targets@.contains(Some(t)),
{
    for k in 0..view_targets.len()
        invariant
            forall|j: int| 0 <= j < k ==> view_targets@[j] != Some(t),
    {
        if let Some(v) = view_targets[k] {
            if v == t {
                proof {
                    assert(view_targets@[k as int] == Some(t));
                }
                return true;
            }
        }
    }
    false
}

/// How many times target `t` is listed in `s`.
pub open spec fn times_listed<C>(s: Seq<(u64, C)>, t: u64) -> nat
    decreases s.len(),
{
    if s.len() == 0 {
        0
    } else {
        times_listed(s.drop_last(), t) + if s.last().0 == t {
            1nat
        } else {
            0nat
        }
    }
}

/// How many times `t` occurs in `s`.
pub open spec fn occurrences(s: Seq<u64>, t: u64) -> nat
    decreases s.len(),
{
    if s.len() == 0 {
        0
    } else {
        occurrences(s.drop_last(), t) + if s.last() == t {
            1nat
        } else {
            0nat
        }
    }
}

/// How many times the clear pass lists target `t` after the views: never when a view's
/// camera renders to it, else once if it has a clear color and once more for each time
/// it is given as a window.
pub open spec fn times_cleared<C>(view_targets: Seq<Option<u64>>, colors: Map<u64, C>, windows: Seq<u64>, t: u64) -> nat {
    if view_targets.contains(Some(t)) {
        0
    } else {
        (if colors.contains_key(t) {
            1nat
        } else {
            0nat
        }) + occurrences(windows, t)
    }
}

/// Which colors the clear pass clears with. Each view, given by the render target of its
/// camera (`None` for a view without a camera), is cleared with the color of its target,
/// or `default`. Then each render target that has a clear color, and each window, that no
/// view's camera renders to is cleared with its color, or `default`; these come in no
/// particular order, and such a target is listed once for its clear color and once more
/// each time it is given as a window, so a target that is both is listed twice.
pub fn clear_plan<C: Copy>(
    view_targets: &[Option<u64>],
    colors: &RenderTargetClearColors<C>,
    default: C,
    windows: &[u64],
) -> (r: (Vec<C>, Vec<(u64, C)>))
    ensures
        r.0@.len() == view_targets@.len(),
        forall|i: int| 0 <= i < view_targets@.len() ==> #[trigger] r.0@[i] == view_color(colors@, default, view_targets@[i]),
        forall|t: u64, c: C| #[trigger] r.1@.contains((t, c)) <==> {
            &&& colors@.contains_key(t) || windows@.contains(t)
            &&& !view_targets@.contains(Some(t))
            &&& c == target_color(colors@, default, t)
        },
        forall|t: u64| #[trigger] times_listed(r.1@, t) == times_cleared(view_targets@, colors@, windows@, t),
{
    let mut view_colors: Vec<C> = Vec::new();
    for i in 0..view_targets.len()
        invariant
            view_colors@.len() == i,
            forall|j: int| 0 <= j < i ==> #[trigger] view_colors@[j] == view_color(colors@, default, view_targets@[j]),
    {
        let color = match view_targets[i] {
            Some(t) => match colors.get(t) {
                Some(c) => *c,
                None => default,
            },
            None => default,
        };
        view_colors.push(color);
    }
    let mut rest: Vec<(u64, C)> = Vec::new();
    let ghost ks = colors.colors.keys().remaining();
    for t in it: colors.colors.keys()
        invariant
            it.seq() == ks,
            ks.unref().to_set() == colors@.dom(),
            forall|x: u64, c: C| #[trigger] rest@.contains((x, c)) <==> {
                &&& (exists|k: int| 0 <= k < it.index() && *ks[k] == x)
                &&& !view_targets@.contains(Some(x))
                &&& c == target_color(colors@, default, x)
            },
            ks.no_duplicates(),
            forall|x: u64| #[trigger] times_listed(rest@, x) == if !view_targets@.contains(Some(x)) && (exists|k: int|
                0 <= k < it.index() && *ks[k] == x) {
                1nat
            } else {
                0nat
            },
    {
        let ghost before = rest@;
        let t = *t;
        if !cleared_by_view(view_targets, t) {
            let c = match colors.get(t) {
                Some(c) => *c,
                None => default,
            };
            rest.push((t, c));
        }
        proof {
            if rest@.len() > before.len() {
                assert(rest@.drop_last() =~= before);
            } else {
                assert(rest@ =~= before);
            }
            assert(*ks[it.index() as int] == t);
            assert forall|x: u64| #[trigger] times_listed(rest@, x) == if !view_targets@.contains(Some(x)) && (exists|k: int|
                0 <= k < it.index() + 1 && *ks[k] == x) {
                1nat
            } else {
                0nat
            } by {
                assert(times_listed(before, x) == if !view_targets@.contains(Some(x)) && (exists|k: int|
                    0 <= k < it.index() && *ks[k] == x) {
                    1nat
                } else {
                    0nat
                });
                if rest@.len() > before.len() {
                    assert(rest@.last() == (t, rest@.last().1));
                    assert(times_listed(rest@, x) == times_listed(before, x) + if t == x {
                        1nat
                    } else {
                        0nat
                    });
                }
                if x == t {
                    assert forall|k: int| 0 <= k < it.index() implies *ks[k] != x by {
                        assert(ks[k] != ks[it.index() as int]);
                    }
                } else if exists|k: int| 0 <= k < it.index() + 1 && *ks[k] == x {
                    let k = choose|k: int| 0 <= k < it.index() + 1 && *ks[k] == x;
                    assert(k < it.index());
                }
            }
            assert forall|x: u64, c: C| #[trigger] rest@.contains((x, c)) <==> {
                &&& (exists|k: int| 0 <= k < it.index() + 1 && *ks[k] == x)
                &&& !view_targets@.contains(Some(x))
                &&& c == target_color(colors@, default, x)
            } by {
                if rest@.contains((x, c)) {
                    let j = choose|j: int| 0 <= j < rest@.len() && rest@[j] == (x, c);
                    if j < before.len() {
                        assert(before.contains((x, c)));
                    }
                }
                if (exists|k: int| 0 <= k < it.index() + 1 && *ks[k] == x) && !view_targets@.contains(Some(x))
                    && c == target_color(colors@, default, x) {
                    let k = choose|k: int| 0 <= k < it.index() + 1 && *ks[k] == x;
                    if k < it.index() {
                        assert(before.contains((x, c)));
                        let j = choose|j: int| 0 <= j < before.len() && before[j] == (x, c);
                        assert(rest@[j] == (x, c));
                    } else {
                        assert(rest@[rest@.len() - 1] == (x, c));
                    }
                }
            }
        }
    }
    proof {
        assert forall|x: u64| (exists|k: int| 0 <= k < ks.len() && *ks[k] == x) <==> colors@.contains_key(x) by {
            if colors@.contains_key(x) {
                assert(ks.unref().to_set().contains(x));
                let k = choose|k: int| 0 <= k < ks.unref().len() && ks.unref()[k] == x;
                assert(*ks[k] == x);
            }
            if exists|k: int| 0 <= k < ks.len() && *ks[k] == x {
                let k = choose|k: int| 0 <= k < ks.len() && *ks[k] == x;
                assert(ks.unref()[k] == x);
                assert(ks.unref().to_set().contains(x));
            }
        }
    }
    let ghost keyed = rest@;
    proof {
        assert(windows@.take(0) =~= Seq::<u64>::empty());
        assert forall|x: u64| #[trigger] times_listed(rest@, x) == if !view_targets@.contains(Some(x)) {
            (if colors@.contains_key(x) {
                1nat
            } else {
                0nat
            }) + occurrences(windows@.take(0), x)
        } else {
            0nat
        } by {
            assert((exists|k: int| 0 <= k < ks.len() && *ks[k] == x) <==> colors@.contains_key(x));
        }
    }
    for w in 0..windows.len()
        invariant
            forall|x: u64| #[trigger] times_listed(rest@, x) == if !view_targets@.contains(Some(x)) {
                (if colors@.contains_key(x) {
                    1nat
                } else {
                    0nat
                }) + occurrences(windows@.take(w as int), x)
            } else {
                0nat
            },
            forall|x: u64, c: C| #[trigger] keyed.contains((x, c)) <==> {
                &&& colors@.contains_key(x)
                &&& !view_targets@.contains(Some(x))
                &&& c == target_color(colors@, default, x)
            },
            forall|x: u64, c: C| #[trigger] rest@.contains((x, c)) <==> {
                ||| keyed.contains((x, c))
                ||| {
                    &&& (exists|k: int| 0 <= k < w && windows@[k] == x)
                    &&& !view_targets@.contains(Some(x))
                    &&& c == target_color(colors@, default, x)
                }
            },
    {
        let ghost before = rest@;
        let t = windows[w];
        proof {
            assert(windows@.take(w + 1).drop_last() =~= windows@.take(w as int));
            assert(windows@.take(w + 1).last() == t);
        }
        if !cleared_by_view(view_targets, t) {
            let c = match colors.get(t) {
                Some(c) => *c,
                None => default,
            };
            rest.push((t, c));
        }
        proof {
            if rest@.len() > before.len() {
                assert(rest@.drop_last() =~= before);
            } else {
                assert(rest@ =~= before);
            }
            assert forall|x: u64| #[trigger] times_listed(rest@, x) == if !view_targets@.contains(Some(x)) {
                (if colors@.contains_key(x) {
                    1nat
                } else {
                    0nat
                }) + occurrences(windows@.take(w + 1), x)
            } else {
                0nat
            } by {
                assert(times_listed(before, x) == if !view_targets@.contains(Some(x)) {
                    (if colors@.contains_key(x) {
                        1nat
                    } else {
                        0nat
                    }) + occurrences(windows@.take(w as int), x)
                } else {
                    0nat
                });
                assert(occurrences(windows@.take(w + 1), x) == occurrences(windows@.take(w as int), x) + if t == x {
                    1nat
                } else {
                    0nat
                });
                if rest@.len() > before.len() {
                    assert(rest@.last() == (t, rest@.last().1));
                    assert(times_listed(rest@, x) == times_listed(before, x) + if t == x {
                        1nat
                    } else {
                        0nat
                    });
                }
            }
            assert forall|x: u64, c: C| #[trigger] rest@.contains((x, c)) <==> {
                ||| keyed.contains((x, c))
                ||| {
                    &&& (exists|k: int| 0 <= k < w + 1 && windows@[k] == x)
                    &&& !view_targets@.contains(Some(x))
                    &&& c == target_color(colors@, default, x)
                }
            } by {
                if rest@.contains((x, c)) {
                    let j = choose|j: int| 0 <= j < rest@.len() && rest@[j] == (x, c);
                    if j < before.len() {
                        assert(before.contains((x, c)));
                    } else {
                        assert(windows@[w as int] == x);
                    }
                }
                if keyed.contains((x, c)) {
                    assert(before.contains((x, c)));
                    let j = choose|j: int| 0 <= j < before.len() && before[j] == (x, c);
                    assert(rest@[j] == (x, c));
                }
                if (exists|k: int| 0 <= k < w + 1 && windows@[k] == x) && !view_targets@.contains(Some(x))
                    && c == target_color(colors@, default, x) {
                    let k = choose|k: int| 0 <= k < w + 1 && windows@[k] == x;
                    if k < w {
                        assert(before.contains((x, c)));
                        let j = choose|j: int| 0 <= j < before.len() && before[j] == (x, c);
                        assert(rest@[j] == (x, c));
                    } else {
                        assert(rest@[rest@.len() - 1] == (x, c));
                    }
                }
            }
        }
    }
    proof {
        assert forall|x: u64| (exists|k: int| 0 <= k < windows@.len() && windows@[k] == x) <==> windows@.contains(x) by {
        }
        assert(windows@.take(windows@.len() as int) =~= windows@);
    }
    (view_colors, rest)
}

} // verus!
