//! The end of a frame, once the render graph has run: the view targets are dropped, so
//! that the swap chain textures they point to can be presented.
use vstd::prelude::*;

use crate::ecs::entity::{ComponentId, Entity, SlotState};
use crate::ecs::world::{World, WorldView};

verus! {

/// The world after component `k` is removed from the alive entities of the first `n`
/// slots, in slot order; each removal is logged.
pub open spec fn without_component_upto<V>(w: WorldView<V>, k: ComponentId, n: nat) -> WorldView<V>
    decreases n,
{
    if n == 0 {
        w
    } else {
        let prev = without_component_upto(w, k, (n - 1) as nat);
        let i = n - 1;
        if w.metas[i].state == SlotState::Alive {
            prev.without_component(Entity { id: i as u32, generation: w.metas[i].generation }, k)
        } else {
            prev
        }
    }
}

/// The values that are present in `s`, in order.
pub open spec fn present<S>(s: Seq<Option<S>>) -> Seq<S>
    decreases s.len(),
{
    if s.len() == 0 {
        Seq::empty()
    } else {
        let rest = present(s.drop_last());
        match s.last() {
            Some(x) => rest.push(x),
            None => rest,
        }
    }
}

/// Ends a frame after the render graph has run: component `view_target` is removed from
/// every entity that has it, in slot order, and each window's swap chain texture is
/// taken. The taken textures come back in window order, to be presented.
pub fn render_system<V, S>(
    world: &mut World<V>,
    view_target: ComponentId,
    swap_chain_textures: &mut Vec<Option<S>>,
) -> (r: Vec<S>)
    requires
        old(world).wf(),
    ensures
        final(world).wf(),
        final(world)@ == without_component_upto(old(world)@, view_target, old(world)@.metas.len()),
        final(swap_chain_textures)@.len() == old(swap_chain_textures)@.len(),
        forall|i: int| 0 <= i < old(swap_chain_textures)@.len() ==> #[trigger] final(swap_chain_textures)@[i] is None,
        r@ == present(old(swap_chain_textures)@),
{
    let ghost w0 = world@;
    let n = world.entities().meta_len();
    proof {
        world.lemma_wf_view();
    }
    for i in 0..n
        invariant
            world.wf(),
            n == w0.metas.len(),
            n <= u32::MAX,
            world@.metas == w0.metas,
            world@ == without_component_upto(w0, view_target, i as nat),
    {
        let meta = world.entities().slot_meta(i as u32);
        if meta.state == SlotState::Alive {
            let e = Entity { id: i as u32, generation: meta.generation };
            world.remove_component(e, view_target);
        }
    }
    let mut taken: Vec<S> = Vec::new();
    let ghost s0 = swap_chain_textures@;
    let count = swap_chain_textures.len();
    for j in 0..count
        invariant
            count == s0.len(),
            swap_chain_textures@.len() == s0.len(),
            forall|t: int| 0 <= t < j ==> #[trigger] swap_chain_textures@[t] is None,
            forall|t: int| j <= t < s0.len() ==> #[trigger] swap_chain_textures@[t] == s0[t],
            taken@ == present(s0.take(j as int)),
    {
        proof {
            assert(s0.take(j + 1).drop_last() =~= s0.take(j as int));
            assert(s0.take(j + 1).last() == s0[j as int]);
        }
        let mut slot: Option<S> = None;
        std::mem::swap(&mut slot, &mut swap_chain_textures[j]);
        match slot {
            Some(texture) => taken.push(texture),
            None => {},
        }
    }
    proof {
        assert(s0.take(s0.len() as int) =~= s0);
    }
    taken
}

} // verus!
