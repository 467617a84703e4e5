//! Identifiers of render resources, and the counter that hands them out.
use vstd::prelude::*;

verus! {

/// Hands out identifiers in increasing order, wrapping after `u64::MAX`.
pub struct IdCounter {
    next: u64,
}

impl IdCounter {
    pub closed spec fn next_id(&self) -> u64 {
        self.next
    }

    pub fn new() -> (r: IdCounter)
        ensures
            r.next_id() == 0,
    {
        IdCounter { next: 0 }
    }

    /// The next identifier; the one after it follows, wrapping.
    pub fn fetch_next(&mut self) -> (r: u64)
        ensures
            r == old(self).next_id(),
            final(self).next_id() == (if r == u64::MAX { 0 } else { (r + 1) as u64 }),
    {
        let r = self.next;
        self.next = self.next.wrapping_add(1);
        r
    }
}

/// Identifies a bind group.
#[derive(Copy, Clone, Debug, PartialEq, Eq, Hash, Structural)]
pub struct BindGroupId(pub u64);

/// Identifies a bind group layout.
#[derive(Copy, Clone, Debug, PartialEq, Eq, Hash, Structural)]
pub struct BindGroupLayoutId(pub u64);

/// Identifies a render pipeline.
#[derive(Copy, Clone, Debug, PartialEq, Eq, Hash, Structural)]
pub struct RenderPipelineId(pub u64);

/// Identifies a compute pipeline.
#[derive(Copy, Clone, Debug, PartialEq, Eq, Hash, Structural)]
pub struct ComputePipelineId(pub u64);

/// Identifies a texture.
#[derive(Copy, Clone, Debug, PartialEq, Eq, Hash, Structural)]
pub struct TextureId(pub u64);

/// Identifies a texture view.
#[derive(Copy, Clone, Debug, PartialEq, Eq, Hash, Structural)]
pub struct TextureViewId(pub u64);

/// Identifies a sampler.
#[derive(Copy, Clone, Debug, PartialEq, Eq, Hash, Structural)]
pub struct SamplerId(pub u64);

/// Identifies a pipeline of a pipeline cache: its index there.
#[derive(Copy, Clone, Debug, PartialEq, Eq, Hash, Structural)]
pub struct CachedPipelineId(pub usize);

impl CachedPipelineId {
    /// An id that names no pipeline.
    pub fn invalid() -> (r: CachedPipelineId)
        ensures
            r.0 == usize::MAX,
    {
        CachedPipelineId(usize::MAX)
    }
}

/// One attribute of a vertex: its format, where it starts in the vertex, and the shader
/// location it feeds.
#[derive(Copy, Clone, Debug)]
pub struct VertexAttribute<F> {
    pub format: F,
    pub offset: u64,
    pub shader_location: u32,
}

/// How vertices lie in a vertex buffer: the distance from one vertex to the next, how the
/// buffer steps, and the attributes of a vertex.
pub struct VertexBufferLayout<S, F> {
    pub array_stride: u64,
    pub step_mode: S,
    pub attributes: Vec<VertexAttribute<F>>,
}

/// The total size of the first `n` formats.
pub open spec fn size_sum<F>(formats: Seq<(F, u64)>, n: int) -> int
    decreases n,
{
    if n <= 0 {
        0
    } else {
        size_sum(formats, n - 1) + formats[n - 1].1
    }
}

impl<S, F: Copy> VertexBufferLayout<S, F> {
    /// A densely packed layout of vertices made of `vertex_formats`, each given with its size
    /// in bytes: attribute `i` starts where the ones before it end and feeds shader location
    /// `i`, and the stride is the size of all of them.
    pub fn from_vertex_formats(step_mode: S, vertex_formats: Vec<(F, u64)>) -> (r: VertexBufferLayout<S, F>)
        requires
            size_sum(vertex_formats@, vertex_formats@.len() as int) <= u64::MAX,
            vertex_formats@.len() <= u32::MAX + 1,
        ensures
            r.step_mode == step_mode,
            r.array_stride == size_sum(vertex_formats@, vertex_formats@.len() as int),
            r.attributes@.len() == vertex_formats@.len(),
            forall|i: int| 0 <= i < vertex_formats@.len() ==> {
                &&& (#[trigger] r.attributes@[i]).format == vertex_formats@[i].0
                &&& r.attributes@[i].offset == size_sum(vertex_formats@, i)
                &&& r.attributes@[i].shader_location == i
            },
    {
        let mut offset: u64 = 0;
        let mut attributes: Vec<VertexAttribute<F>> = Vec::new();
        for i in 0..vertex_formats.len()
            invariant
                size_sum(vertex_formats@, vertex_formats@.len() as int) <= u64::MAX,
                vertex_formats@.len() <= u32::MAX + 1,
                offset == size_sum(vertex_formats@, i as int),
                attributes@.len() == i,
                forall|t: int| 0 <= t < i ==> {
                    &&& (#[trigger] attributes@[t]).format == vertex_formats@[t].0
                    &&& attributes@[t].offset == size_sum(vertex_formats@, t)
                    &&& attributes@[t].shader_location == t
                },
        {
            let (format, size) = vertex_formats[i];
            attributes.push(VertexAttribute { format, offset, shader_location: i as u32 });
            proof {
                lemma_size_sum_monotone(vertex_formats@, i + 1, vertex_formats@.len() as int);
            }
            offset = offset + size;
        }
        VertexBufferLayout { array_stride: offset, step_mode, attributes }
    }
}

proof fn lemma_size_sum_monotone<F>(formats: Seq<(F, u64)>, m: int, n: int)
    requires
        0 <= m <= n,
    ensures
        size_sum(formats, m) <= size_sum(formats, n),
    decreases n,
{
    if m < n {
        lemma_size_sum_monotone(formats, m, n - 1);
    }
}

} // verus!
