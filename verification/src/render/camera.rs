//! Camera settings, and which cameras must update their projection.
use vstd::prelude::*;

use crate::ecs::entity::Entity;

verus! {

/// How the depth of an entity from a camera is measured.
#[derive(Copy, Clone, Debug, PartialEq, Eq, Structural)]
pub enum DepthCalculation {
    /// The distance; works everywhere, costs more.
    Distance,
    /// The difference of z, for 2D cameras that look down -Z.
    ZDifference,
}

impl Default for DepthCalculation {
    fn default() -> (r: DepthCalculation)
        ensures
            r == DepthCalculation::Distance,
    {
        DepthCalculation::Distance
    }
}

/// Where an orthographic projection puts the origin of the window.
#[derive(Copy, Clone, Debug, PartialEq, Eq, Structural)]
pub enum WindowOrigin {
    Center,
    BottomLeft,
}

/// How an orthographic projection follows the size of its window.
#[derive(Copy, Clone, Debug, PartialEq, Eq, Structural)]
pub enum ScalingMode {
    /// The given bounds, stretched with the window (no scaling).
    Unscaled,
    /// One world unit per pixel.
    WindowSize,
    /// The vertical extent stays; the horizontal follows the aspect ratio.
    FixedVertical,
    /// The horizontal extent stays; the vertical follows the aspect ratio.
    FixedHorizontal,
}

/// Identifies a window.
#[derive(Copy, Clone, Debug, PartialEq, Eq, Hash, Structural)]
pub struct WindowId(pub u64);

/// The elements of `s`, each at its first place.
pub open spec fn first_occurrences<T>(s: Seq<T>) -> Seq<T>
    decreases s.len(),
{
    if s.len() == 0 {
        s
    } else {
        let prev = first_occurrences(s.drop_last());
        if prev.contains(s.last()) {
            prev
        } else {
            prev.push(s.last())
        }
    }
}

/// Whether `id` is among the ids of `ids`.
fn contains_window(ids: &Vec<WindowId>, id: WindowId) -> (r: bool)
    ensures
        r == ids@.contains(id),
{
    for k in 0..ids.len()
        invariant
            forall|t: int| 0 <= t < k ==> ids@[t] != id,
    {
        if ids[k] == id {
            proof {
                assert(ids@[k as int] == id);
            }
            return true;
        }
    }
    false
}

/// The windows whose cameras must update their projection: those resized, the latest
/// event first, then those created, the latest first, each window once.
pub fn changed_windows(resized: &[WindowId], created: &[WindowId]) -> (r: Vec<WindowId>)
    ensures
        r@ == first_occurrences(resized@.reverse() + created@.reverse()),
{
    let mut changed: Vec<WindowId> = Vec::new();
    let ghost all = resized@.reverse() + created@.reverse();
    let mut k: usize = resized.len();
    let ghost n = resized@.len();
    while k > 0
        invariant
            k <= resized@.len(),
            n == resized@.len(),
            all == resized@.reverse() + created@.reverse(),
            changed@ == first_occurrences(all.take(n - k)),
        decreases k,
    {
        k = k - 1;
        let id = resized[k];
        proof {
            assert(all.take(n - k).drop_last() =~= all.take(n - k - 1));
            assert(all.take(n - k).last() == id);
        }
        if !contains_window(&changed, id) {
            changed.push(id);
        }
    }
    let mut k: usize = created.len();
    let ghost m = created@.len();
    while k > 0
        invariant
            k <= created@.len(),
            n == resized@.len(),
            m == created@.len(),
            all == resized@.reverse() + created@.reverse(),
            changed@ == first_occurrences(all.take(n + m - k)),
        decreases k,
    {
        k = k - 1;
        let id = created[k];
        proof {
            assert(all.take(n + m - k).drop_last() =~= all.take(n + m - k - 1));
            assert(all.take(n + m - k).last() == id);
        }
        if !contains_window(&changed, id) {
            changed.push(id);
        }
    }
    proof {
        assert(all.take((n + m) as int) =~= all);
    }
    changed
}

/// Whether a camera of `entity` that renders to `window` must update its projection: its
/// window exists, and the window changed, or the camera was just added, or its projection
/// changed.
pub fn camera_needs_update(
    window_exists: bool,
    window: WindowId,
    changed: &Vec<WindowId>,
    entity: Entity,
    added: &Vec<Entity>,
    projection_changed: bool,
) -> (r: bool)
    ensures
        r == (window_exists && (changed@.contains(window) || added@.contains(entity) || projection_changed)),
{
    if !window_exists {
        return false;
    }
    if contains_window(changed, window) {
        return true;
    }
    for k in 0..added.len()
        invariant
            window_exists,
            !changed@.contains(window),
            forall|t: int| 0 <= t < k ==> added@[t] != entity,
    {
        if added[k] == entity {
            proof {
                assert(added@[k as int] == entity);
            }
            return true;
        }
    }
    projection_changed
}

} // verus!
