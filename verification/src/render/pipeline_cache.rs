//! Render pipelines that are queued now and compiled once their shaders are loaded.
//!
//! The device that compiles shaders and pipelines is passed in as two functions, so the
//! cache decides what to compile and when, and the device does the compiling.
use std::collections::{HashMap, HashSet};
use vstd::prelude::*;
use vstd::std_specs::iter::IteratorSpec;

use crate::render::resource::CachedPipelineId;
use crate::render::shader::Shader;

verus! {

broadcast use vstd::std_specs::hash::group_hash_axioms;

/// Why a pipeline could not be compiled.
#[derive(Debug, Clone, Copy, PartialEq, Eq, Structural)]
pub enum RenderPipelineError {
    /// The shader with this handle is not loaded yet.
    ShaderNotLoaded(u64),
}

/// Where a cached pipeline stands.
#[derive(Debug)]
pub enum CachedPipelineState<P> {
    /// Waiting to be compiled.
    Queued,
    /// Compiled.
    Compiled(P),
    /// Not compiled, for the reason given; tried again when the queue is next processed.
    Failed(RenderPipelineError),
}

impl<P> CachedPipelineState<P> {
    /// The compiled pipeline; it must have been compiled.
    pub fn unwrap(&self) -> (r: &P)
        requires
            self is Compiled,
        ensures
            *self == CachedPipelineState::Compiled(*r),
    {
        match self {
            CachedPipelineState::Compiled(p) => p,
            _ => vstd::pervasive::unreached(),
        }
    }
}

/// What a pipeline is made of: the shaders of its stages, and the rest of its state,
/// which goes to the device as it is.
pub struct RenderPipelineDescriptor<D> {
    pub vertex_shader: u64,
    pub fragment_shader: Option<u64>,
    pub state: D,
}

/// The shader a pipeline waits for, if one of its stages' shaders is not loaded: the
/// vertex shader first.
pub open spec fn missing_shader<D>(d: RenderPipelineDescriptor<D>, loaded: Set<u64>) -> Option<u64> {
    if !loaded.contains(d.vertex_shader) {
        Some(d.vertex_shader)
    } else {
        match d.fragment_shader {
            Some(f) => if !loaded.contains(f) {
                Some(f)
            } else {
                None
            },
            None => None,
        }
    }
}

/// A pipeline waits exactly when one of its stages' shaders is not loaded, and then waits
/// for such a shader, the vertex shader when that one is missing.
pub proof fn lemma_missing_shader_is_unloaded_stage<D>(d: RenderPipelineDescriptor<D>, loaded: Set<u64>)
    ensures
        missing_shader(d, loaded) is None <==> loaded.contains(d.vertex_shader) && (d.fragment_shader is Some
            ==> loaded.contains(d.fragment_shader.unwrap())),
        missing_shader(d, loaded) is Some ==> !loaded.contains(missing_shader(d, loaded).unwrap()) && (missing_shader(
            d,
            loaded,
        ).unwrap() == d.vertex_shader || d.fragment_shader == Some(missing_shader(d, loaded).unwrap())),
        !loaded.contains(d.vertex_shader) ==> missing_shader(d, loaded) == Some(d.vertex_shader),
{
}

/// The shaders of a pipeline that get compiled when it is processed: the vertex shader
/// when it is loaded, and the fragment shader when both are.
pub open spec fn used_shaders<D>(d: RenderPipelineDescriptor<D>, loaded: Set<u64>) -> Set<u64> {
    if !loaded.contains(d.vertex_shader) {
        Set::empty()
    } else {
        match d.fragment_shader {
            Some(f) => if loaded.contains(f) {
                set![d.vertex_shader, f]
            } else {
                set![d.vertex_shader]
            },
            None => set![d.vertex_shader],
        }
    }
}

/// The pipelines that use a shader, and its compiled module once there is one.
pub struct ShaderData<M> {
    pub pipelines: HashSet<usize>,
    pub processed_shader: Option<M>,
}

/// The loaded shaders, and for each shader compiled for a pipeline the pipelines that use
/// it and its compiled module.
struct ShaderCache<M> {
    data: HashMap<u64, ShaderData<M>>,
    shaders: HashMap<u64, Shader>,
}

/// The pipelines recorded as users of shader `h`.
pub open spec fn users_of(users: Map<u64, Set<usize>>, h: u64) -> Set<usize> {
    if users.contains_key(h) {
        users[h]
    } else {
        Set::empty()
    }
}

impl<M> ShaderCache<M> {
    closed spec fn users(&self) -> Map<u64, Set<usize>> {
        Map::new(|h: u64| self.data@.contains_key(h), |h: u64| self.data@[h].pipelines@)
    }

    /// The compiled module kept for each shader that has one.
    closed spec fn modules(&self) -> Map<u64, M> {
        Map::new(
            |h: u64| self.data@.contains_key(h) && self.data@[h].processed_shader is Some,
            |h: u64| self.data@[h].processed_shader->0,
        )
    }

    /// Makes sure the compiled module of shader `handle` is kept, compiling it with
    /// `create_module` unless it is kept already; `pipeline` is recorded as a user of the
    /// shader.
    fn get<F: Fn(&Shader) -> M>(&mut self, create_module: &F, pipeline: usize, handle: u64) -> (r: Result<
        (),
        RenderPipelineError,
    >)
        requires
            forall|s: &Shader| #[trigger] create_module.requires((s,)),
        ensures
            final(self).shaders@ == old(self).shaders@,
            match r {
                Ok(_) => {
                    &&& old(self).shaders@.contains_key(handle)
                    &&& final(self).users() == old(self).users().insert(
                        handle,
                        users_of(old(self).users(), handle).insert(pipeline),
                    )
                    &&& final(self).modules().contains_key(handle)
                    &&& old(self).modules().contains_key(handle) ==> final(self).modules() == old(self).modules()
                    &&& !old(self).modules().contains_key(handle) ==> {
                        &&& final(self).modules() == old(self).modules().insert(handle, final(self).modules()[handle])
                        &&& call_ensures(create_module, (&old(self).shaders@[handle],), final(self).modules()[handle])
                    }
                },
                Err(e) => {
                    &&& e == RenderPipelineError::ShaderNotLoaded(handle)
                    &&& !old(self).shaders@.contains_key(handle)
                    &&& final(self).users() == old(self).users()
                    &&& final(self).modules() == old(self).modules()
                },
            },
    {
        let shader = match self.shaders.get(&handle) {
            Some(s) => s,
            None => return Err(RenderPipelineError::ShaderNotLoaded(handle)),
        };
        let mut data = match self.data.remove(&handle) {
            Some(d) => d,
            None => ShaderData { pipelines: HashSet::new(), processed_shader: None },
        };
        let ghost had = old(self).modules().contains_key(handle);
        if data.processed_shader.is_none() {
            let module = create_module(shader);
            data.processed_shader = Some(module);
        }
        data.pipelines.insert(pipeline);
        self.data.insert(handle, data);
        proof {
            assert(self.users() =~= old(self).users().insert(handle, users_of(old(self).users(), handle).insert(pipeline)));
            if had {
                assert(self.modules() =~= old(self).modules());
            } else {
                assert(self.modules() =~= old(self).modules().insert(handle, self.modules()[handle]));
            }
        }
        Ok(())
    }

    /// The compiled module kept for shader `handle`, which must have one.
    fn module(&self, handle: u64) -> (r: &M)
        requires
            self.modules().contains_key(handle),
        ensures
            *r == self.modules()[handle],
    {
        match self.data.get(&handle) {
            Some(d) => match &d.processed_shader {
                Some(m) => m,
                None => vstd::pervasive::unreached(),
            },
            None => vstd::pervasive::unreached(),
        }
    }

    /// Drops the compiled module of shader `handle`, and lists the pipelines that use it.
    fn clear(&mut self, handle: u64) -> (r: Vec<CachedPipelineId>)
        ensures
            final(self).shaders@ == old(self).shaders@,
            final(self).users() == old(self).users(),
            final(self).modules() == old(self).modules().remove(handle),
            forall|id: usize| users_of(old(self).users(), handle).contains(id) <==> exists|k: int|
                0 <= k < r@.len() && #[trigger] r@[k].0 == id,
    {
        match self.data.remove(&handle) {
            Some(mut data) => {
                data.processed_shader = None;
                let ids = pipeline_ids(&data.pipelines);
                self.data.insert(handle, data);
                proof {
                    assert(self.users() =~= old(self).users());
                    assert(self.modules() =~= old(self).modules().remove(handle));
                }
                ids
            },
            None => {
                proof {
                    assert(self.modules() =~= old(self).modules().remove(handle));
                }
                Vec::new()
            },
        }
    }

    /// Loads `shader` under `handle`, and lists the pipelines that use the shader it
    /// replaces.
    fn set_shader(&mut self, handle: u64, shader: Shader) -> (r: Vec<CachedPipelineId>)
        ensures
            final(self).shaders@ == old(self).shaders@.insert(handle, shader),
            final(self).users() == old(self).users(),
            final(self).modules() == old(self).modules().remove(handle),
            forall|id: usize| users_of(old(self).users(), handle).contains(id) <==> exists|k: int|
                0 <= k < r@.len() && #[trigger] r@[k].0 == id,
    {
        let pipelines_to_queue = self.clear(handle);
        self.shaders.insert(handle, shader);
        pipelines_to_queue
    }

    /// Unloads shader `handle`, and lists the pipelines that use it.
    fn remove(&mut self, handle: u64) -> (r: Vec<CachedPipelineId>)
        ensures
            final(self).shaders@ == old(self).shaders@.remove(handle),
            final(self).users() == old(self).users(),
            final(self).modules() == old(self).modules().remove(handle),
            forall|id: usize| users_of(old(self).users(), handle).contains(id) <==> exists|k: int|
                0 <= k < r@.len() && #[trigger] r@[k].0 == id,
    {
        let pipelines_to_queue = self.clear(handle);
        self.shaders.remove(&handle);
        pipelines_to_queue
    }
}

/// The ids of a set of pipelines, in the set's order.
fn pipeline_ids(set: &HashSet<usize>) -> (r: Vec<CachedPipelineId>)
    ensures
        forall|id: usize| set@.contains(id) <==> exists|k: int| 0 <= k < r@.len() && #[trigger] r@[k].0 == id,
{
    let mut out: Vec<CachedPipelineId> = Vec::new();
    let ghost ks = set.iter().remaining();
    for id in it: set.iter()
        invariant
            it.seq() == ks,
            out@.len() == it.index(),
            forall|k: int| 0 <= k < it.index() ==> (#[trigger] out@[k]).0 == *ks[k],
    {
        out.push(CachedPipelineId(*id));
    }
    proof {
        assert(ks.unref().to_set() == set@);
        assert forall|id: usize| set@.contains(id) implies exists|k: int| 0 <= k < out@.len() && #[trigger] out@[k].0 == id by {
            assert(ks.unref().to_set().contains(id));
            let k = choose|k: int| 0 <= k < ks.unref().len() && ks.unref()[k] == id;
            assert(*ks[k] == id);
            assert(out@[k].0 == id);
        }
        assert forall|id: usize| (exists|k: int| 0 <= k < out@.len() && #[trigger] out@[k].0 == id) implies set@.contains(id) by {
            let k = choose|k: int| 0 <= k < out@.len() && #[trigger] out@[k].0 == id;
            assert(ks.unref()[k] == id);
            assert(ks.unref().to_set().contains(id));
        }
    }
    out
}

/// The abstract state of a pipeline cache.
#[verifier::ext_equal]
pub struct PipelineCacheView<D, P, M> {
    pub descriptors: Seq<RenderPipelineDescriptor<D>>,
    pub states: Seq<CachedPipelineState<P>>,
    pub waiting: Set<usize>,
    pub shaders: Map<u64, Shader>,
    /// For each shader that has been compiled for a pipeline, the pipelines that use it.
    pub users: Map<u64, Set<usize>>,
    /// The compiled module kept for each shader that has one.
    pub modules: Map<u64, M>,
}

/// Caches render pipelines by id, and compiles those that wait once their shaders are
/// loaded.
pub struct RenderPipelineCache<D, P, M> {
    descriptors: Vec<RenderPipelineDescriptor<D>>,
    states: Vec<CachedPipelineState<P>>,
    waiting_pipelines: HashSet<usize>,
    shader_cache: ShaderCache<M>,
}

impl<D, P, M> View for RenderPipelineCache<D, P, M> {
    type V = PipelineCacheView<D, P, M>;

    closed spec fn view(&self) -> PipelineCacheView<D, P, M> {
        PipelineCacheView {
            descriptors: self.descriptors@,
            states: self.states@,
            waiting: self.waiting_pipelines@,
            shaders: self.shader_cache.shaders@,
            users: self.shader_cache.users(),
            modules: self.shader_cache.modules(),
        }
    }
}

impl<D, P, M> PipelineCacheView<D, P, M> {
    /// Every pipeline id the cache holds names a pipeline.
    pub open spec fn wf(self) -> bool {
        &&& self.states.len() == self.descriptors.len()
        &&& forall|id: usize| #[trigger] self.waiting.contains(id) ==> id < self.descriptors.len()
        &&& forall|h: u64, id: usize| #[trigger] self.users.contains_key(h) && #[trigger] self.users[h].contains(id)
            ==> id < self.descriptors.len()
    }

    /// Pipeline `id` is compiled.
    pub open spec fn is_ok(self, id: int) -> bool {
        self.states[id] is Compiled
    }
}

impl<D, P, M> RenderPipelineCache<D, P, M> {
    pub fn new() -> (r: RenderPipelineCache<D, P, M>)
        ensures
            r@.wf(),
            r@.descriptors.len() == 0,
            r@.waiting == Set::<usize>::empty(),
            r@.shaders == Map::<u64, Shader>::empty(),
            r@.users == Map::<u64, Set<usize>>::empty(),
            r@.modules == Map::<u64, M>::empty(),
    {
        let r = RenderPipelineCache {
            descriptors: Vec::new(),
            states: Vec::new(),
            waiting_pipelines: HashSet::new(),
            shader_cache: ShaderCache { data: HashMap::new(), shaders: HashMap::new() },
        };
        proof {
            assert(r@.users =~= Map::<u64, Set<usize>>::empty());
            assert(r@.modules =~= Map::<u64, M>::empty());
        }
        r
    }

    pub fn get_state(&self, id: CachedPipelineId) -> (r: &CachedPipelineState<P>)
        requires
            self@.wf(),
            id.0 < self@.descriptors.len(),
        ensures
            *r == self@.states[id.0 as int],
    {
        &self.states[id.0]
    }

    pub fn get_descriptor(&self, id: CachedPipelineId) -> (r: &RenderPipelineDescriptor<D>)
        requires
            id.0 < self@.descriptors.len(),
        ensures
            *r == self@.descriptors[id.0 as int],
    {
        &self.descriptors[id.0]
    }

    /// The compiled pipeline `id`, if it is compiled.
    pub fn get(&self, id: CachedPipelineId) -> (r: Option<&P>)
        requires
            self@.wf(),
            id.0 < self@.descriptors.len(),
        ensures
            match r {
                Some(p) => self@.states[id.0 as int] == CachedPipelineState::Compiled(*p),
                None => !self@.is_ok(id.0 as int),
            },
    {
        match &self.states[id.0] {
            CachedPipelineState::Compiled(p) => Some(p),
            _ => None,
        }
    }

    /// Adds a pipeline, to be compiled when the queue is next processed.
    pub fn queue(&mut self, descriptor: RenderPipelineDescriptor<D>) -> (r: CachedPipelineId)
        requires
            old(self)@.wf(),
            old(self)@.descriptors.len() < usize::MAX,
        ensures
            final(self)@.wf(),
            r.0 == old(self)@.descriptors.len(),
            final(self)@.descriptors == old(self)@.descriptors.push(descriptor),
            final(self)@.states == old(self)@.states.push(CachedPipelineState::Queued),
            final(self)@.waiting == old(self)@.waiting.insert(r.0),
            final(self)@.shaders == old(self)@.shaders,
            final(self)@.users == old(self)@.users,
            final(self)@.modules == old(self)@.modules,
    {
        let id = CachedPipelineId(self.descriptors.len());
        self.descriptors.push(descriptor);
        self.states.push(CachedPipelineState::Queued);
        self.waiting_pipelines.insert(id.0);
        proof {
            assert(self@.users =~= old(self)@.users);
            assert(self@.modules =~= old(self)@.modules);
            assert forall|h: u64, i: usize| #[trigger] self@.users.contains_key(h) && #[trigger] self@.users[h].contains(i)
                implies i < self@.descriptors.len() by {
                assert(old(self)@.users.contains_key(h) && old(self)@.users[h].contains(i));
            }
            assert forall|i: usize| #[trigger] self@.waiting.contains(i) implies i < self@.descriptors.len() by {
                if i != id.0 {
                    assert(old(self)@.waiting.contains(i));
                }
            }
        }
        id
    }
}

/// The modules that a pipeline is built from: the module of its vertex shader, and that of
/// its fragment shader when it has one.
pub open spec fn stage_modules<D, M>(d: RenderPipelineDescriptor<D>, modules: Map<u64, M>) -> (M, Option<M>) {
    (
        modules[d.vertex_shader],
        match d.fragment_shader {
            Some(f) => Some(modules[f]),
            None => None,
        },
    )
}

/// `p` is a pipeline that `create_pipeline` builds from the state of `d` and the modules
/// of its stages.
pub open spec fn built_from<D, P, M, G: Fn(&D, &M, Option<&M>) -> P>(
    create_pipeline: &G,
    d: RenderPipelineDescriptor<D>,
    modules: Map<u64, M>,
    p: P,
) -> bool {
    let (v, f) = stage_modules(d, modules);
    create_pipeline.ensures(
        (
            &d.state,
            &v,
            match f {
                Some(m) => Some(&m),
                None => None,
            },
        ),
        p,
    )
}

/// `new` is what processing the queue of `old` leaves: each pipeline as
/// `processed_state` says, the failed ones waiting, the shaders compiled for the
/// attempted pipelines recorded with them, and their modules kept: a module kept before
/// stays, and a new one is what `create_module` compiles from the shader.
pub open spec fn queue_processed<D, P, M, F: Fn(&Shader) -> M, G: Fn(&D, &M, Option<&M>) -> P>(
    old: PipelineCacheView<D, P, M>,
    new: PipelineCacheView<D, P, M>,
    create_module: &F,
    create_pipeline: &G,
) -> bool {
    &&& new.descriptors == old.descriptors
    &&& new.shaders == old.shaders
    &&& new.states.len() == old.states.len()
    &&& forall|i: int| 0 <= i < old.states.len() ==> processed_state(old, new.modules, create_pipeline, i, #[trigger] new.states[i])
    &&& forall|id: usize| #[trigger] new.waiting.contains(id) <==> still_waiting(old, id)
    &&& forall|h: u64, id: usize| #[trigger] users_of(new.users, h).contains(id) <==> users_of(old.users, h).contains(id)
        || (attempted(old, id) && used_shaders(old.descriptors[id as int], old.shaders.dom()).contains(h))
    &&& forall|h: u64| #[trigger] new.modules.contains_key(h) <==> old.modules.contains_key(h)
        || exists|id: usize| attempted(old, id) && #[trigger] used_shaders(old.descriptors[id as int], old.shaders.dom()).contains(h)
    &&& modules_grown(old, new.modules, create_module)
}

/// `modules` keeps each module of `old` as it was, and each other one is what
/// `create_module` compiles from the loaded shader.
pub open spec fn modules_grown<D, P, M, F: Fn(&Shader) -> M>(
    old: PipelineCacheView<D, P, M>,
    modules: Map<u64, M>,
    create_module: &F,
) -> bool {
    &&& forall|h: u64| #[trigger] old.modules.contains_key(h) ==> modules.contains_key(h) && modules[h] == old.modules[h]
    &&& forall|h: u64| #[trigger] modules.contains_key(h) && !old.modules.contains_key(h)
        ==> old.shaders.contains_key(h) && create_module.ensures((&old.shaders[h],), modules[h])
}

/// What processing the queue leaves in slot `i`, whose state was `old.states[i]`: a
/// waiting pipeline that is not compiled fails on the first of its shaders that is not
/// loaded, and is otherwise built by `create_pipeline` from the `modules` of its shaders.
pub open spec fn processed_state<D, P, M, G: Fn(&D, &M, Option<&M>) -> P>(
    old: PipelineCacheView<D, P, M>,
    modules: Map<u64, M>,
    create_pipeline: &G,
    i: int,
    new: CachedPipelineState<P>,
) -> bool {
    if old.waiting.contains(i as usize) && !old.is_ok(i) {
        match missing_shader(old.descriptors[i], old.shaders.dom()) {
            Some(h) => new == CachedPipelineState::<P>::Failed(RenderPipelineError::ShaderNotLoaded(h)),
            None => match new {
                CachedPipelineState::Compiled(p) => built_from(create_pipeline, old.descriptors[i], modules, p),
                _ => false,
            },
        }
    } else {
        new == old.states[i]
    }
}

/// Pipeline `id` is compiled, or attempted, when the queue is processed.
pub open spec fn attempted<D, P, M>(old: PipelineCacheView<D, P, M>, id: usize) -> bool {
    old.waiting.contains(id) && !old.is_ok(id as int)
}

/// Pipeline `id` still waits after the queue is processed.
pub open spec fn still_waiting<D, P, M>(old: PipelineCacheView<D, P, M>, id: usize) -> bool {
    attempted(old, id) && missing_shader(old.descriptors[id as int], old.shaders.dom()) is Some
}

impl<D, P, M> RenderPipelineCache<D, P, M> {
    /// Puts the pipelines of `ids` back in the queue.
    fn requeue(&mut self, ids: Vec<CachedPipelineId>)
        requires
            old(self)@.wf(),
            forall|k: int| 0 <= k < ids@.len() ==> (#[trigger] ids@[k]).0 < old(self)@.descriptors.len(),
        ensures
            final(self)@.wf(),
            final(self)@.descriptors == old(self)@.descriptors,
            final(self)@.shaders == old(self)@.shaders,
            final(self)@.users == old(self)@.users,
            final(self)@.modules == old(self)@.modules,
            final(self)@.states.len() == old(self)@.states.len(),
            forall|i: int| 0 <= i < old(self)@.states.len() ==> #[trigger] final(self)@.states[i] == if exists|k: int|
                0 <= k < ids@.len() && ids@[k].0 == i {
                CachedPipelineState::<P>::Queued
            } else {
                old(self)@.states[i]
            },
            forall|id: usize| #[trigger] final(self)@.waiting.contains(id) <==> old(self)@.waiting.contains(id)
                || exists|k: int| 0 <= k < ids@.len() && ids@[k].0 == id,
    {
        for j in 0..ids.len()
            invariant
                old(self)@.wf(),
                forall|k: int| 0 <= k < ids@.len() ==> (#[trigger] ids@[k]).0 < old(self)@.descriptors.len(),
                self@.descriptors == old(self)@.descriptors,
                self@.shaders == old(self)@.shaders,
                self@.users == old(self)@.users,
                self@.modules == old(self)@.modules,
                self@.states.len() == old(self)@.states.len(),
                forall|i: int| 0 <= i < old(self)@.states.len() ==> #[trigger] self@.states[i] == if exists|k: int|
                    0 <= k < j && ids@[k].0 == i {
                    CachedPipelineState::<P>::Queued
                } else {
                    old(self)@.states[i]
                },
                forall|id: usize| #[trigger] self@.waiting.contains(id) <==> old(self)@.waiting.contains(id)
                    || exists|k: int| 0 <= k < j && ids@[k].0 == id,
        {
            let id = ids[j];
            let ghost before = self@;
            proof {
                assert(ids@[j as int].0 < old(self)@.descriptors.len());
            }
            self.states.set(id.0, CachedPipelineState::Queued);
            self.waiting_pipelines.insert(id.0);
            proof {
                assert forall|i: int| 0 <= i < old(self)@.states.len() implies #[trigger] self@.states[i] == if exists|k: int|
                    0 <= k < j + 1 && ids@[k].0 == i {
                    CachedPipelineState::<P>::Queued
                } else {
                    old(self)@.states[i]
                } by {
                    if i == id.0 {
                        assert(ids@[j as int].0 == i);
                    }
                }
                assert forall|x: usize| #[trigger] self@.waiting.contains(x) <==> old(self)@.waiting.contains(x)
                    || exists|k: int| 0 <= k < j + 1 && ids@[k].0 == x by {
                    assert(before.waiting.contains(x) <==> old(self)@.waiting.contains(x)
                        || exists|k: int| 0 <= k < j && ids@[k].0 == x);
                    if x == id.0 {
                        assert(ids@[j as int].0 == x);
                    } else if exists|k: int| 0 <= k < j + 1 && ids@[k].0 == x {
                        let k = choose|k: int| 0 <= k < j + 1 && ids@[k].0 == x;
                        assert(k != j);
                        assert(exists|k2: int| 0 <= k2 < j && ids@[k2].0 == x);
                    }
                }
            }
        }
        proof {
            assert forall|x: usize| #[trigger] self@.waiting.contains(x) implies x < self@.descriptors.len() by {
                if !old(self)@.waiting.contains(x) {
                    let k = choose|k: int| 0 <= k < ids@.len() && ids@[k].0 == x;
                    assert(ids@[k].0 < old(self)@.descriptors.len());
                }
            }
        }
    }

    /// Loads `shader` under `handle`; the pipelines that use the shader it replaces go back
    /// in the queue.
    pub fn set_shader(&mut self, handle: u64, shader: &Shader)
        requires
            old(self)@.wf(),
        ensures
            final(self)@.wf(),
            final(self)@ == old(self)@.shader_set(handle, *shader),
    {
        let count = self.states.len();
        let copy = Shader { source: crate::render::shader::Source(shader.source.0.clone()) };
        let pipelines_to_queue = self.shader_cache.set_shader(handle, copy);
        proof {
            assert(old(self)@.states.len() == count);
            self.lemma_users_bounded(old(self)@, handle, pipelines_to_queue@);
        }
        self.requeue(pipelines_to_queue);
        proof {
            assert(self@.waiting =~= old(self)@.waiting + users_of(old(self)@.users, handle));
            assert(self@.states =~= old(self)@.requeued(handle).states);
        }
    }

    /// Unloads shader `handle`; the pipelines that use it go back in the queue.
    pub fn remove_shader(&mut self, handle: u64)
        requires
            old(self)@.wf(),
        ensures
            final(self)@.wf(),
            final(self)@ == old(self)@.shader_removed(handle),
    {
        let count = self.states.len();
        let pipelines_to_queue = self.shader_cache.remove(handle);
        proof {
            assert(old(self)@.states.len() == count);
            self.lemma_users_bounded(old(self)@, handle, pipelines_to_queue@);
        }
        self.requeue(pipelines_to_queue);
        proof {
            assert(self@.waiting =~= old(self)@.waiting + users_of(old(self)@.users, handle));
            assert(self@.states =~= old(self)@.requeued(handle).states);
        }
    }

    proof fn lemma_users_bounded(&self, old: PipelineCacheView<D, P, M>, handle: u64, ids: Seq<CachedPipelineId>)
        requires
            old.wf(),
            self@.descriptors == old.descriptors,
            self@.states == old.states,
            self@.waiting == old.waiting,
            self@.users == old.users,
            forall|id: usize| users_of(old.users, handle).contains(id) <==> exists|k: int|
                0 <= k < ids.len() && #[trigger] ids[k].0 == id,
            old.states.len() <= usize::MAX,
        ensures
            self@.wf(),
            forall|k: int| 0 <= k < ids.len() ==> (#[trigger] ids[k]).0 < old.descriptors.len(),
            forall|i: int| 0 <= i < old.states.len() ==> ((exists|k: int| 0 <= k < ids.len() && ids[k].0 == i)
                <==> #[trigger] users_of(old.users, handle).contains(i as usize)),
            forall|id: usize| users_of(old.users, handle).contains(id) ==> id < old.descriptors.len(),
    {
        assert forall|k: int| 0 <= k < ids.len() implies (#[trigger] ids[k]).0 < old.descriptors.len() by {
            let id = ids[k].0;
            assert(users_of(old.users, handle).contains(id));
            assert(old.users.contains_key(handle) && old.users[handle].contains(id));
        }
        assert forall|id: usize| users_of(old.users, handle).contains(id) implies id < old.descriptors.len() by {
            assert(old.users.contains_key(handle) && old.users[handle].contains(id));
        }
        assert forall|i: int| 0 <= i < old.states.len() implies ((exists|k: int| 0 <= k < ids.len() && ids[k].0 == i)
            <==> #[trigger] users_of(old.users, handle).contains(i as usize)) by {
            let id = i as usize;
            assert(id as int == i);
            if users_of(old.users, handle).contains(id) {
                let k = choose|k: int| 0 <= k < ids.len() && #[trigger] ids[k].0 == id;
                assert(ids[k].0 == i);
            }
        }
    }
}

/// A slot's state stays as `processed_state` says when modules are added to `m1`: the
/// modules its pipeline was built from are kept.
proof fn lemma_processed_state_kept<D, P, M, G: Fn(&D, &M, Option<&M>) -> P>(
    v0: PipelineCacheView<D, P, M>,
    m1: Map<u64, M>,
    m2: Map<u64, M>,
    create_pipeline: &G,
    x: usize,
    st: CachedPipelineState<P>,
)
    requires
        processed_state(v0, m1, create_pipeline, x as int, st),
        forall|h: u64| #[trigger] m1.contains_key(h) ==> m2.contains_key(h) && m2[h] == m1[h],
        attempted(v0, x) ==> forall|h: u64|
            #[trigger] used_shaders(v0.descriptors[x as int], v0.shaders.dom()).contains(h) ==> m1.contains_key(h),
    ensures
        processed_state(v0, m2, create_pipeline, x as int, st),
{
    let d = v0.descriptors[x as int];
    if attempted(v0, x) && missing_shader(d, v0.shaders.dom()) is None {
        assert(used_shaders(d, v0.shaders.dom()).contains(d.vertex_shader));
        match d.fragment_shader {
            Some(f) => {
                assert(used_shaders(d, v0.shaders.dom()).contains(f));
            },
            None => {},
        }
        assert(stage_modules(d, m1) == stage_modules(d, m2));
    }
}

impl<D, P, M> RenderPipelineCache<D, P, M> {
    /// Compiles the pipelines that wait and are not compiled yet, with the shader modules
    /// that `create_module` compiles and the pipelines that `create_pipeline` builds from a
    /// pipeline's state and its vertex and fragment modules. A pipeline one of whose
    /// shaders is not loaded fails for now and keeps waiting.
    pub fn process_queue<F, G>(&mut self, create_module: &F, create_pipeline: &G)
        where
            F: Fn(&Shader) -> M,
            G: Fn(&D, &M, Option<&M>) -> P,
        requires
            old(self)@.wf(),
            forall|s: &Shader| #[trigger] create_module.requires((s,)),
            forall|d: &D, v: &M, f: Option<&M>| #[trigger] create_pipeline.requires((d, v, f)),
        ensures
            final(self)@.wf(),
            queue_processed(old(self)@, final(self)@, create_module, create_pipeline),
    {
        let ghost v0 = self@;
        let ghost loaded = v0.shaders.dom();
        let mut pipelines: HashSet<usize> = HashSet::new();
        std::mem::swap(&mut pipelines, &mut self.waiting_pipelines);
        let ghost ks = pipelines.iter().remaining();
        let ghost mut done: Set<usize> = Set::empty();
        proof {
            assert(ks.unref().to_set() == v0.waiting);
        }
        for id in it: pipelines.iter()
            invariant
                v0.wf(),
                it.seq() == ks,
                ks.unref().to_set() == v0.waiting,
                ks.no_duplicates(),
                forall|s: &Shader| #[trigger] create_module.requires((s,)),
                forall|d: &D, v: &M, f: Option<&M>| #[trigger] create_pipeline.requires((d, v, f)),
                loaded == v0.shaders.dom(),
                self@.descriptors == v0.descriptors,
                self@.shaders == v0.shaders,
                self@.states.len() == v0.states.len(),
                forall|k: int| 0 <= k < it.index() ==> done.contains(*#[trigger] ks[k]),
                forall|k: int| it.index() <= k < ks.len() ==> !done.contains(*#[trigger] ks[k]),
                forall|x: usize| done.contains(x) ==> v0.waiting.contains(x),
                forall|x: usize| x < v0.states.len() && !done.contains(x) ==> #[trigger] self@.states[x as int] == v0.states[x as int],
                forall|x: usize| x < v0.states.len() && done.contains(x)
                    ==> processed_state(v0, self@.modules, create_pipeline, x as int, #[trigger] self@.states[x as int]),
                forall|x: usize| #[trigger] self@.waiting.contains(x) <==> done.contains(x) && still_waiting(v0, x),
                forall|h: u64, x: usize| #[trigger] users_of(self@.users, h).contains(x) <==> users_of(v0.users, h).contains(x)
                    || (done.contains(x) && attempted(v0, x) && used_shaders(v0.descriptors[x as int], loaded).contains(h)),
                forall|h: u64| #[trigger] self@.modules.contains_key(h) <==> v0.modules.contains_key(h)
                    || exists|x: usize| done.contains(x) && attempted(v0, x) && #[trigger] used_shaders(v0.descriptors[x as int], loaded).contains(h),
                modules_grown(v0, self@.modules, create_module),
        {
            let i = *id;
            let ghost before = self@;
            let ghost done0 = done;
            proof {
                assert(ks[it.index() as int] == id);
                assert(!done.contains(i));
                assert(ks.unref().to_set().contains(i)) by {
                    assert(ks.unref()[it.index() as int] == i);
                }
                assert(v0.waiting.contains(i));
                assert(i < v0.descriptors.len());
                assert(self@.states[i as int] == v0.states[i as int]);
                done = done.insert(i);
            }
            self.process_one(create_module, create_pipeline, i, Ghost(v0));
            proof {
                assert forall|k: int| it.index() + 1 <= k < ks.len() implies !done.contains(*#[trigger] ks[k]) by {
                    assert(k != it.index());
                    assert(ks[k] != ks[it.index() as int]);
                }
                assert forall|h: u64| #[trigger] self@.modules.contains_key(h) <==> v0.modules.contains_key(h)
                    || exists|x: usize| done.contains(x) && attempted(v0, x) && #[trigger] used_shaders(v0.descriptors[x as int], loaded).contains(h) by {
                    if before.modules.contains_key(h) {
                        if !v0.modules.contains_key(h) {
                            let x = choose|x: usize| done0.contains(x) && attempted(v0, x) && #[trigger] used_shaders(v0.descriptors[x as int], loaded).contains(h);
                            assert(done.contains(x));
                        }
                    }
                    if exists|x: usize| done.contains(x) && attempted(v0, x) && #[trigger] used_shaders(v0.descriptors[x as int], loaded).contains(h) {
                        let x = choose|x: usize| done.contains(x) && attempted(v0, x) && #[trigger] used_shaders(v0.descriptors[x as int], loaded).contains(h);
                        if x != i {
                            assert(done0.contains(x));
                        }
                    }
                }
                assert forall|x: usize| x < v0.states.len() && done.contains(x)
                    implies processed_state(v0, self@.modules, create_pipeline, x as int, #[trigger] self@.states[x as int]) by {
                    if x != i {
                        assert(done0.contains(x));
                        assert(self@.states[x as int] == before.states[x as int]);
                        if attempted(v0, x) {
                            assert forall|h: u64| #[trigger] used_shaders(v0.descriptors[x as int], v0.shaders.dom()).contains(h)
                                implies before.modules.contains_key(h) by {
                                assert(done0.contains(x) && attempted(v0, x) && used_shaders(v0.descriptors[x as int], loaded).contains(h));
                            }
                        }
                        lemma_processed_state_kept(v0, before.modules, self@.modules, create_pipeline, x, self@.states[x as int]);
                    }
                }
            }
        }
        let count = self.states.len();
        proof {
            assert(count == v0.states.len());
            assert forall|x: usize| v0.waiting.contains(x) implies done.contains(x) by {
                assert(ks.unref().to_set().contains(x));
                let k = choose|k: int| 0 <= k < ks.unref().len() && ks.unref()[k] == x;
                assert(*ks[k] == x);
            }
            assert forall|i: int| 0 <= i < v0.states.len() implies processed_state(v0, self@.modules, create_pipeline, i, #[trigger] self@.states[i]) by {
                let x = i as usize;
                assert(x as int == i);
                if !done.contains(x) {
                    assert(self@.states[x as int] == v0.states[x as int]);
                    assert(!v0.waiting.contains(x));
                }
            }
            assert forall|h: u64, x: usize| #[trigger] self@.users.contains_key(h) && #[trigger] self@.users[h].contains(x)
                implies x < self@.descriptors.len() by {
                assert(users_of(self@.users, h).contains(x));
                if users_of(v0.users, h).contains(x) {
                    assert(v0.users.contains_key(h) && v0.users[h].contains(x));
                }
            }
        }
    }

    /// Compiles pipeline `i`, which waits and is untouched since `v0`, unless it is compiled
    /// already.
    fn process_one<F, G>(&mut self, create_module: &F, create_pipeline: &G, i: usize, Ghost(v0): Ghost<PipelineCacheView<D, P, M>>)
        where
            F: Fn(&Shader) -> M,
            G: Fn(&D, &M, Option<&M>) -> P,
        requires
            v0.wf(),
            v0.waiting.contains(i),
            forall|s: &Shader| #[trigger] create_module.requires((s,)),
            forall|d: &D, v: &M, f: Option<&M>| #[trigger] create_pipeline.requires((d, v, f)),
            old(self)@.descriptors == v0.descriptors,
            old(self)@.shaders == v0.shaders,
            old(self)@.states.len() == v0.states.len(),
            old(self)@.states[i as int] == v0.states[i as int],
            modules_grown(v0, old(self)@.modules, create_module),
        ensures
            final(self)@.descriptors == old(self)@.descriptors,
            final(self)@.shaders == old(self)@.shaders,
            final(self)@.states == old(self)@.states.update(i as int, final(self)@.states[i as int]),
            processed_state(v0, final(self)@.modules, create_pipeline, i as int, final(self)@.states[i as int]),
            forall|x: usize| #[trigger] final(self)@.waiting.contains(x) <==> old(self)@.waiting.contains(x)
                || (x == i && still_waiting(v0, i)),
            forall|h: u64, x: usize| #[trigger] users_of(final(self)@.users, h).contains(x) <==> users_of(old(self)@.users, h).contains(x)
                || (x == i && attempted(v0, i) && used_shaders(v0.descriptors[i as int], v0.shaders.dom()).contains(h)),
            forall|h: u64| #[trigger] final(self)@.modules.contains_key(h) <==> old(self)@.modules.contains_key(h)
                || (attempted(v0, i) && used_shaders(v0.descriptors[i as int], v0.shaders.dom()).contains(h)),
            forall|h: u64| #[trigger] old(self)@.modules.contains_key(h) ==> final(self)@.modules.contains_key(h)
                && final(self)@.modules[h] == old(self)@.modules[h],
            modules_grown(v0, final(self)@.modules, create_module),
    {
        let ghost loaded = v0.shaders.dom();
        let ghost before = self@;
        if let CachedPipelineState::Compiled(_) = &self.states[i] {
            proof {
                assert(self@.states =~= old(self)@.states.update(i as int, self@.states[i as int]));
                assert(self@.users == before.users);
            }
            return;
        }
        let vertex = self.descriptors[i].vertex_shader;
        match self.shader_cache.get(create_module, i, vertex) {
            Ok(()) => {},
            Err(e) => {
                self.states.set(i, CachedPipelineState::Failed(e));
                self.waiting_pipelines.insert(i);
                proof {
                    assert(self@.users == before.users);
                    assert(used_shaders(v0.descriptors[i as int], loaded) =~= Set::<u64>::empty());
                }
                return;
            },
        }
        let ghost mid = self@;
        proof {
            assert forall|h: u64| #[trigger] self@.modules.contains_key(h) && !v0.modules.contains_key(h)
                implies v0.shaders.contains_key(h) && create_module.ensures((&v0.shaders[h],), self@.modules[h]) by {
                if h != vertex || before.modules.contains_key(vertex) {
                    assert(before.modules.contains_key(h));
                }
            }
        }
        let fragment = self.descriptors[i].fragment_shader;
        match fragment {
            Some(f) => match self.shader_cache.get(create_module, i, f) {
                Ok(()) => {
                    proof {
                        assert forall|h: u64| #[trigger] self@.modules.contains_key(h) && !v0.modules.contains_key(h)
                            implies v0.shaders.contains_key(h) && create_module.ensures((&v0.shaders[h],), self@.modules[h]) by {
                            if h != f || mid.modules.contains_key(f) {
                                assert(mid.modules.contains_key(h));
                            }
                        }
                    }
                },
                Err(e) => {
                    self.states.set(i, CachedPipelineState::Failed(e));
                    self.waiting_pipelines.insert(i);
                    proof {
                        assert(used_shaders(v0.descriptors[i as int], loaded) =~= set![vertex]);
                        assert forall|h: u64, x: usize| #[trigger] users_of(self@.users, h).contains(x) <==> users_of(old(self)@.users, h).contains(x)
                            || (x == i && attempted(v0, i) && used_shaders(v0.descriptors[i as int], loaded).contains(h)) by {
                            if h == vertex {
                            }
                        }
                    }
                    return;
                },
            },
            None => {},
        }
        let vertex_module = self.shader_cache.module(vertex);
        let fragment_module = match fragment {
            Some(f) => Some(self.shader_cache.module(f)),
            None => None,
        };
        let pipeline = create_pipeline(&self.descriptors[i].state, vertex_module, fragment_module);
        proof {
            let d = v0.descriptors[i as int];
            assert(built_from(create_pipeline, d, self@.modules, pipeline));
        }
        self.states.set(i, CachedPipelineState::Compiled(pipeline));
        proof {
            match v0.descriptors[i as int].fragment_shader {
                Some(f) => {
                    assert(used_shaders(v0.descriptors[i as int], loaded) =~= set![vertex, f]);
                },
                None => {
                    assert(used_shaders(v0.descriptors[i as int], loaded) =~= set![vertex]);
                },
            }
        }
    }
}

/// A change to the shader assets.
#[derive(Debug, Clone, Copy, PartialEq, Eq, Structural)]
pub enum AssetEvent {
    Created { handle: u64 },
    Modified { handle: u64 },
    Removed { handle: u64 },
}

impl<D, P, M> PipelineCacheView<D, P, M> {
    /// The pipelines that use shader `h` go back in the queue.
    pub open spec fn requeued(self, h: u64) -> PipelineCacheView<D, P, M> {
        PipelineCacheView {
            states: Seq::new(
                self.states.len(),
                |i: int| if users_of(self.users, h).contains(i as usize) {
                    CachedPipelineState::<P>::Queued
                } else {
                    self.states[i]
                },
            ),
            waiting: self.waiting + users_of(self.users, h),
            modules: self.modules.remove(h),
            ..self
        }
    }

    /// Shader `h` is loaded as `shader`, and the pipelines that use it go back in the queue.
    pub open spec fn shader_set(self, h: u64, shader: Shader) -> PipelineCacheView<D, P, M> {
        PipelineCacheView { shaders: self.shaders.insert(h, shader), ..self.requeued(h) }
    }

    /// Shader `h` is unloaded, and the pipelines that use it go back in the queue.
    pub open spec fn shader_removed(self, h: u64) -> PipelineCacheView<D, P, M> {
        PipelineCacheView { shaders: self.shaders.remove(h), ..self.requeued(h) }
    }

    /// The cache after the asset events `evs`, in order; a created or modified shader
    /// that is no longer among the assets is skipped.
    pub open spec fn after_events(self, evs: Seq<AssetEvent>, assets: Map<u64, Shader>) -> PipelineCacheView<D, P, M>
        decreases evs.len(),
    {
        if evs.len() == 0 {
            self
        } else {
            let prev = self.after_events(evs.drop_last(), assets);
            match evs.last() {
                AssetEvent::Created { handle } | AssetEvent::Modified { handle } => if assets.contains_key(handle) {
                    prev.shader_set(handle, assets[handle])
                } else {
                    prev
                },
                AssetEvent::Removed { handle } => prev.shader_removed(handle),
            }
        }
    }
}

impl<D, P, M> RenderPipelineCache<D, P, M> {
    /// Follows the changes to the shader assets: created and modified shaders are loaded,
    /// removed ones unloaded, and the pipelines that use them go back in the queue.
    pub fn extract_shaders(&mut self, events: &[AssetEvent], assets: &HashMap<u64, Shader>)
        requires
            old(self)@.wf(),
        ensures
            final(self)@.wf(),
            final(self)@ == old(self)@.after_events(events@, assets@),
    {
        for j in 0..events.len()
            invariant
                self@.wf(),
                self@ == old(self)@.after_events(events@.take(j as int), assets@),
        {
            let ghost before = self@;
            proof {
                assert(events@.take(j + 1).drop_last() =~= events@.take(j as int));
                assert(events@.take(j + 1).last() == events@[j as int]);
            }
            match events[j] {
                AssetEvent::Created { handle } | AssetEvent::Modified { handle } => {
                    match assets.get(&handle) {
                        Some(shader) => {
                            self.set_shader(handle, shader);
                            proof {
                                                }
                        },
                        None => {},
                    }
                },
                AssetEvent::Removed { handle } => {
                    self.remove_shader(handle);

                },
            }
        }
        proof {
            assert(events@.take(events@.len() as int) =~= events@);
        }
    }
}

/// A modified shader asset is reloaded exactly as a created one: after the events `evs`
/// and then a `Modified` event for a handle among the assets, the cache is what a
/// `Created` event would leave, whether or not a shader was loaded under that handle. The
/// asset is then the loaded shader, its compiled module is dropped, and every pipeline
/// that used the shader is queued again; the other pipelines keep their state. A
/// `Removed` event unloads the shader and requeues its users the same way.
pub proof fn lemma_modified_shader_reloads<D, P, M>(
    v: PipelineCacheView<D, P, M>,
    evs: Seq<AssetEvent>,
    assets: Map<u64, Shader>,
    h: u64,
)
    requires
        assets.contains_key(h),
    ensures
        v.after_events(evs.push(AssetEvent::Modified { handle: h }), assets) == v.after_events(
            evs.push(AssetEvent::Created { handle: h }),
            assets,
        ),
        ({
            let prev = v.after_events(evs, assets);
            let next = v.after_events(evs.push(AssetEvent::Modified { handle: h }), assets);
            &&& next.shaders == prev.shaders.insert(h, assets[h])
            &&& !next.modules.contains_key(h)
            &&& forall|g: u64| g != h ==> (#[trigger] next.modules.contains_key(g) == prev.modules.contains_key(g))
            &&& next.states.len() == prev.states.len()
            &&& forall|i: int| 0 <= i < prev.states.len() && users_of(prev.users, h).contains(i as usize)
                ==> #[trigger] next.states[i] == CachedPipelineState::<P>::Queued && next.waiting.contains(i as usize)
            &&& forall|i: int| 0 <= i < prev.states.len() && !users_of(prev.users, h).contains(i as usize)
                ==> #[trigger] next.states[i] == prev.states[i]
        }),
        ({
            let prev = v.after_events(evs, assets);
            let next = v.after_events(evs.push(AssetEvent::Removed { handle: h }), assets);
            &&& next.shaders == prev.shaders.remove(h)
            &&& !next.modules.contains_key(h)
            &&& forall|i: int| 0 <= i < prev.states.len() && users_of(prev.users, h).contains(i as usize)
                ==> #[trigger] next.states[i] == CachedPipelineState::<P>::Queued && next.waiting.contains(i as usize)
        }),
{
    let em = evs.push(AssetEvent::Modified { handle: h });
    let ec = evs.push(AssetEvent::Created { handle: h });
    let er = evs.push(AssetEvent::Removed { handle: h });
    assert(em.drop_last() =~= evs);
    assert(ec.drop_last() =~= evs);
    assert(er.drop_last() =~= evs);
}

/// A pipeline compiled when the queue is processed is compiled again after any of its
/// shaders changes or is removed: the change puts it back in the queue.
pub proof fn lemma_shader_change_requeues<D, P, M, F: Fn(&Shader) -> M, G: Fn(&D, &M, Option<&M>) -> P>(
    old: PipelineCacheView<D, P, M>,
    new: PipelineCacheView<D, P, M>,
    create_module: &F,
    create_pipeline: &G,
    id: usize,
    h: u64,
    shader: Shader,
)
    requires
        old.wf(),
        queue_processed(old, new, create_module, create_pipeline),
        attempted(old, id),
        missing_shader(old.descriptors[id as int], old.shaders.dom()) is None,
        old.descriptors[id as int].vertex_shader == h || old.descriptors[id as int].fragment_shader == Some(h),
    ensures
        new.states[id as int] is Compiled,
        !new.waiting.contains(id),
        new.shader_set(h, shader).states[id as int] == CachedPipelineState::<P>::Queued,
        new.shader_set(h, shader).waiting.contains(id),
        new.shader_removed(h).states[id as int] == CachedPipelineState::<P>::Queued,
        new.shader_removed(h).waiting.contains(id),
{
    assert(id < old.descriptors.len());
    assert(processed_state(old, new.modules, create_pipeline, id as int, new.states[id as int]));
    assert(used_shaders(old.descriptors[id as int], old.shaders.dom()).contains(h));
    assert(users_of(new.users, h).contains(id));
}

} // verus!
