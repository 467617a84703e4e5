//! Per-view settings and the label of the render sub-app.
use vstd::prelude::*;

use crate::ecs::world::{World, WorldView};

verus! {

/// Multi-sample anti-aliasing: the number of samples per pixel.
#[derive(Copy, Clone, Debug, PartialEq, Eq, Structural)]
pub struct Msaa {
    pub samples: u32,
}

impl Default for Msaa {
    /// Four samples.
    fn default() -> (r: Msaa)
        ensures
            r.samples == 4,
    {
        Msaa { samples: 4 }
    }
}

/// Where a view's uniforms start in the uniform buffer.
#[derive(Copy, Clone, Debug, PartialEq, Eq, Structural)]
pub struct ViewUniformOffset {
    pub offset: u32,
}

/// The label of the render sub-app.
#[derive(Copy, Clone, Debug, PartialEq, Eq, Hash, Structural)]
pub struct RenderApp;

/// The main app's world, lent to the render world while the render app extracts from it.
pub struct MainWorld<V>(pub World<V>);

impl<V> Default for MainWorld<V> {
    /// An empty world.
    fn default() -> (r: MainWorld<V>)
        ensures
            r.0.wf(),
            r.0@.metas.len() == 0,
            r.0@.data.len() == 0,
            r.0@.resources == Map::<u32, V>::empty(),
    {
        MainWorld(World::new())
    }
}

} // verus!
