//! The graph compiler: a deterministic, pure compilation of an author-time
//! description graph into a runtime graph plus a registry of the objects the
//! device layer must create.
//!
//! Compilation performs no device call and allocates no device object: every
//! created object is described by a registry entry carrying a fresh handle,
//! and the device layer realizes the entries afterwards. A graph with a
//! cycle fails with [`CompileError::CycleDetected`] before any entry is
//! produced.

use vstd::prelude::*;
use crate::graph;
use crate::builder::{DescNode, NodeBuilder, RenderDAGBuilder, CompileError, DependencyKind};
use crate::runtime::{NodeRuntime, RuntimeNode, RuntimeNodeV, RenderDAG, RenderDAGV, Rect2D,
    Viewport};

verus! {

/// The plain facts about the device and swapchain that compilation needs.
#[derive(Debug, Clone, Copy, PartialEq, Eq, Structural)]
pub struct CompileContext {
    /// How many images the swapchain rotates through; framebuffers are
    /// created one per image.
    pub swapchain_image_count: u32,
    /// Current surface extent, for the dynamic viewport and scissor state.
    pub surface_width: u32,
    pub surface_height: u32,
}

/// Whether an attachment carries color or depth.
#[derive(Debug, Clone, Copy, PartialEq, Eq, Structural)]
pub enum AttachmentClass {
    Color,
    Depth,
}

/// One attachment slot of a compiled render pass.
#[derive(Debug, Clone, Copy, PartialEq, Eq, Structural)]
pub struct AttachmentDesc {
    pub index: u8,
    pub class: AttachmentClass,
}

/// An execution dependency between two subpasses of one render pass, by
/// subpass index; [`EXTERNAL_SUBPASS`] as source names the barrier against
/// work outside the pass.
#[derive(Debug, Clone, Copy, PartialEq, Eq, Structural)]
pub struct SubpassDep {
    pub src: u32,
    pub dst: u32,
}

/// Marker for a dependency source outside the render pass.
pub const EXTERNAL_SUBPASS: u32 = 4294967295;

/// One binding slot of a descriptor-set layout.
#[derive(Debug, Clone, Copy, PartialEq, Eq, Structural)]
pub struct BindingDesc {
    pub binding: u32,
    pub descriptor_type: u32,
    pub stage: u32,
    pub count: u32,
}

/// One vertex buffer binding of a pipeline.
#[derive(Debug, Clone, Copy, PartialEq, Eq, Structural)]
pub struct VertexBindingDesc {
    pub binding: u32,
    pub stride: u32,
    pub rate: u32,
}

/// One vertex attribute of a pipeline.
#[derive(Debug, Clone, Copy, PartialEq, Eq, Structural)]
pub struct VertexAttributeDesc {
    pub binding: u32,
    pub location: u32,
    pub format: u32,
    pub offset: u32,
}

/// A compiled render pass: its attachments sorted ascending by attachment
/// index, its subpass indices sorted ascending, and the dependency chain
/// that orders each subpass after the one before it.
#[derive(Debug, Clone, PartialEq)]
pub struct RenderPassEntry {
    pub name: String,
    pub handle: u64,
    pub attachments: Vec<AttachmentDesc>,
    pub subpass_indices: Vec<u8>,
    pub dependencies: Vec<SubpassDep>,
}

#[verifier::ext_equal]
pub struct RenderPassEntryV {
    pub name: Seq<char>,
    pub handle: u64,
    pub attachments: Seq<AttachmentDesc>,
    pub subpass_indices: Seq<u8>,
    pub dependencies: Seq<SubpassDep>,
}

impl View for RenderPassEntry {
    type V = RenderPassEntryV;

    open spec fn view(&self) -> RenderPassEntryV {
        RenderPassEntryV {
            name: self.name@,
            handle: self.handle,
            attachments: self.attachments@,
            subpass_indices: self.subpass_indices@,
            dependencies: self.dependencies@,
        }
    }
}

/// A compiled descriptor set: the layout built from its bindings, and
/// `multiplicity` allocated instances drawn from a pool sized to the sum of
/// the binding counts times the multiplicity.
#[derive(Debug, Clone, PartialEq)]
pub struct DescriptorSetEntry {
    pub name: String,
    pub layout_handle: u64,
    pub bindings: Vec<BindingDesc>,
    pub multiplicity: u32,
    pub pool_capacity: u64,
    pub set_handles: Vec<u64>,
}

#[verifier::ext_equal]
pub struct DescriptorSetEntryV {
    pub name: Seq<char>,
    pub layout_handle: u64,
    pub bindings: Seq<BindingDesc>,
    pub multiplicity: u32,
    pub pool_capacity: u64,
    pub set_handles: Seq<u64>,
}

impl View for DescriptorSetEntry {
    type V = DescriptorSetEntryV;

    open spec fn view(&self) -> DescriptorSetEntryV {
        DescriptorSetEntryV {
            name: self.name@,
            layout_handle: self.layout_handle,
            bindings: self.bindings@,
            multiplicity: self.multiplicity,
            pool_capacity: self.pool_capacity,
            set_handles: self.set_handles@,
        }
    }
}

/// A compiled pipeline layout: the descriptor-set layouts it chains.
#[derive(Debug, Clone, PartialEq)]
pub struct PipelineLayoutEntry {
    pub name: String,
    pub handle: u64,
    pub set_layouts: Vec<u64>,
}

#[verifier::ext_equal]
pub struct PipelineLayoutEntryV {
    pub name: Seq<char>,
    pub handle: u64,
    pub set_layouts: Seq<u64>,
}

impl View for PipelineLayoutEntry {
    type V = PipelineLayoutEntryV;

    open spec fn view(&self) -> PipelineLayoutEntryV {
        PipelineLayoutEntryV {
            name: self.name@,
            handle: self.handle,
            set_layouts: self.set_layouts@,
        }
    }
}

/// A compiled framebuffer set: one framebuffer per swapchain image, all
/// built against one render pass.
#[derive(Debug, Clone, PartialEq)]
pub struct FramebufferEntry {
    pub name: String,
    pub handle: u64,
    pub renderpass: u64,
    pub image_count: u32,
}

#[verifier::ext_equal]
pub struct FramebufferEntryV {
    pub name: Seq<char>,
    pub handle: u64,
    pub renderpass: u64,
    pub image_count: u32,
}

impl View for FramebufferEntry {
    type V = FramebufferEntryV;

    open spec fn view(&self) -> FramebufferEntryV {
        FramebufferEntryV {
            name: self.name@,
            handle: self.handle,
            renderpass: self.renderpass,
            image_count: self.image_count,
        }
    }
}

/// A compiled graphics pipeline: its shaders, vertex input state, resolved
/// pipeline layout, owning render pass and subpass index.
#[derive(Debug, Clone, PartialEq)]
pub struct PipelineEntry {
    pub name: String,
    pub handle: u64,
    pub layout: u64,
    pub renderpass: u64,
    pub subpass_index: u8,
    pub vertex_shaders: Vec<String>,
    pub fragment_shaders: Vec<String>,
    pub vertex_bindings: Vec<VertexBindingDesc>,
    pub vertex_attributes: Vec<VertexAttributeDesc>,
}

#[verifier::ext_equal]
pub struct PipelineEntryV {
    pub name: Seq<char>,
    pub handle: u64,
    pub layout: u64,
    pub renderpass: u64,
    pub subpass_index: u8,
    pub vertex_shaders: Seq<Seq<char>>,
    pub fragment_shaders: Seq<Seq<char>>,
    pub vertex_bindings: Seq<VertexBindingDesc>,
    pub vertex_attributes: Seq<VertexAttributeDesc>,
}

impl View for PipelineEntry {
    type V = PipelineEntryV;

    open spec fn view(&self) -> PipelineEntryV {
        PipelineEntryV {
            name: self.name@,
            handle: self.handle,
            layout: self.layout,
            renderpass: self.renderpass,
            subpass_index: self.subpass_index,
            vertex_shaders: Seq::new(self.vertex_shaders@.len(), |i: int| self.vertex_shaders@[i]@),
            fragment_shaders: Seq::new(
                self.fragment_shaders@.len(),
                |i: int| self.fragment_shaders@[i]@,
            ),
            vertex_bindings: self.vertex_bindings@,
            vertex_attributes: self.vertex_attributes@,
        }
    }
}

/// Name-keyed tables of every object the compiler resolved, owned for the
/// lifetime of the compiled graph.
#[derive(Debug, Clone, PartialEq)]
pub struct ResourceRegistry {
    pub renderpasses: Vec<RenderPassEntry>,
    pub descriptor_sets: Vec<DescriptorSetEntry>,
    pub pipeline_layouts: Vec<PipelineLayoutEntry>,
    pub framebuffers: Vec<FramebufferEntry>,
    pub pipelines: Vec<PipelineEntry>,
}

#[verifier::ext_equal]
pub struct RegistryV {
    pub renderpasses: Seq<RenderPassEntryV>,
    pub descriptor_sets: Seq<DescriptorSetEntryV>,
    pub pipeline_layouts: Seq<PipelineLayoutEntryV>,
    pub framebuffers: Seq<FramebufferEntryV>,
    pub pipelines: Seq<PipelineEntryV>,
}

impl View for ResourceRegistry {
    type V = RegistryV;

    open spec fn view(&self) -> RegistryV {
        RegistryV {
            renderpasses: Seq::new(self.renderpasses@.len(), |i: int| self.renderpasses@[i]@),
            descriptor_sets: Seq::new(
                self.descriptor_sets@.len(),
                |i: int| self.descriptor_sets@[i]@,
            ),
            pipeline_layouts: Seq::new(
                self.pipeline_layouts@.len(),
                |i: int| self.pipeline_layouts@[i]@,
            ),
            framebuffers: Seq::new(self.framebuffers@.len(), |i: int| self.framebuffers@[i]@),
            pipelines: Seq::new(self.pipelines@.len(), |i: int| self.pipelines@[i]@),
        }
    }
}

impl ResourceRegistry {
    pub fn new() -> (r: ResourceRegistry)
        ensures
            r@.renderpasses.len() == 0,
            r@.descriptor_sets.len() == 0,
            r@.pipeline_layouts.len() == 0,
            r@.framebuffers.len() == 0,
            r@.pipelines.len() == 0,
    {
        ResourceRegistry {
            renderpasses: Vec::new(),
            descriptor_sets: Vec::new(),
            pipeline_layouts: Vec::new(),
            framebuffers: Vec::new(),
            pipelines: Vec::new(),
        }
    }
}

/// The first position holding an entry of the given name, scanning names
/// with the supplied projection.
pub open spec fn spec_find_named(names: Seq<Seq<char>>, name: Seq<char>, k: int) -> Option<int>
    decreases k,
{
    if k <= 0 {
        None
    } else {
        match spec_find_named(names, name, k - 1) {
            Some(i) => Some(i),
            None => if names[k - 1] == name {
                Some(k - 1)
            } else {
                None
            },
        }
    }
}

proof fn lemma_find_named_extend(names: Seq<Seq<char>>, name: Seq<char>, k: int, k2: int)
    requires
        0 <= k <= k2,
        spec_find_named(names, name, k) is Some,
    ensures
        spec_find_named(names, name, k2) == spec_find_named(names, name, k),
    decreases k2 - k,
{
    if k2 > k {
        lemma_find_named_extend(names, name, k, k2 - 1);
    }
}

impl ResourceRegistry {
    pub open spec fn spec_rp_names(self) -> Seq<Seq<char>> {
        Seq::new(self@.renderpasses.len(), |i: int| self@.renderpasses[i].name)
    }

    pub open spec fn spec_ds_names(self) -> Seq<Seq<char>> {
        Seq::new(self@.descriptor_sets.len(), |i: int| self@.descriptor_sets[i].name)
    }

    pub open spec fn spec_pl_names(self) -> Seq<Seq<char>> {
        Seq::new(self@.pipeline_layouts.len(), |i: int| self@.pipeline_layouts[i].name)
    }

    pub open spec fn spec_fb_names(self) -> Seq<Seq<char>> {
        Seq::new(self@.framebuffers.len(), |i: int| self@.framebuffers[i].name)
    }

    pub open spec fn spec_pipe_names(self) -> Seq<Seq<char>> {
        Seq::new(self@.pipelines.len(), |i: int| self@.pipelines[i].name)
    }

    /// Looks a render pass up by name: the first entry under that name, or
    /// nothing exactly when no entry carries it.
    #[verifier::loop_isolation(false)]
    pub fn renderpass<'a>(&'a self, name: &String) -> (r: Option<&'a RenderPassEntry>)
        ensures
            match spec_find_named(
                self.spec_rp_names(),
                name@,
                self@.renderpasses.len() as int,
            ) {
                Some(i) => r is Some && r.unwrap()@ == self@.renderpasses[i],
                None => r is None,
            },
    {
        let mut k: usize = 0;
        while k < self.renderpasses.len()
            invariant
                k <= self@.renderpasses.len(),
                spec_find_named(self.spec_rp_names(), name@, k as int)
                    is None,
            decreases self@.renderpasses.len() - k,
        {
            if self.renderpasses[k].name == *name {
                proof {
                    lemma_find_named_extend(
                        self.spec_rp_names(),
                        name@,
                        k as int + 1,
                        self@.renderpasses.len() as int,
                    );
                }
                return Some(&self.renderpasses[k]);
            }
            k = k + 1;
        }
        None
    }

    /// Looks a descriptor set up by name.
    #[verifier::loop_isolation(false)]
    pub fn descriptor_set<'a>(&'a self, name: &String) -> (r: Option<&'a DescriptorSetEntry>)
        ensures
            match spec_find_named(
                self.spec_ds_names(),
                name@,
                self@.descriptor_sets.len() as int,
            ) {
                Some(i) => r is Some && r.unwrap()@ == self@.descriptor_sets[i],
                None => r is None,
            },
    {
        let mut k: usize = 0;
        while k < self.descriptor_sets.len()
            invariant
                k <= self@.descriptor_sets.len(),
                spec_find_named(self.spec_ds_names(), name@, k as int)
                    is None,
            decreases self@.descriptor_sets.len() - k,
        {
            if self.descriptor_sets[k].name == *name {
                proof {
                    lemma_find_named_extend(
                        self.spec_ds_names(),
                        name@,
                        k as int + 1,
                        self@.descriptor_sets.len() as int,
                    );
                }
                return Some(&self.descriptor_sets[k]);
            }
            k = k + 1;
        }
        None
    }

    /// Looks a pipeline layout up by name.
    #[verifier::loop_isolation(false)]
    pub fn pipeline_layout<'a>(&'a self, name: &String) -> (r: Option<&'a PipelineLayoutEntry>)
        ensures
            match spec_find_named(
                self.spec_pl_names(),
                name@,
                self@.pipeline_layouts.len() as int,
            ) {
                Some(i) => r is Some && r.unwrap()@ == self@.pipeline_layouts[i],
                None => r is None,
            },
    {
        let mut k: usize = 0;
        while k < self.pipeline_layouts.len()
            invariant
                k <= self@.pipeline_layouts.len(),
                spec_find_named(self.spec_pl_names(), name@, k as int)
                    is None,
            decreases self@.pipeline_layouts.len() - k,
        {
            if self.pipeline_layouts[k].name == *name {
                proof {
                    lemma_find_named_extend(
                        self.spec_pl_names(),
                        name@,
                        k as int + 1,
                        self@.pipeline_layouts.len() as int,
                    );
                }
                return Some(&self.pipeline_layouts[k]);
            }
            k = k + 1;
        }
        None
    }

    /// Looks a framebuffer set up by name.
    #[verifier::loop_isolation(false)]
    pub fn framebuffer<'a>(&'a self, name: &String) -> (r: Option<&'a FramebufferEntry>)
        ensures
            match spec_find_named(
                self.spec_fb_names(),
                name@,
                self@.framebuffers.len() as int,
            ) {
                Some(i) => r is Some && r.unwrap()@ == self@.framebuffers[i],
                None => r is None,
            },
    {
        let mut k: usize = 0;
        while k < self.framebuffers.len()
            invariant
                k <= self@.framebuffers.len(),
                spec_find_named(self.spec_fb_names(), name@, k as int)
                    is None,
            decreases self@.framebuffers.len() - k,
        {
            if self.framebuffers[k].name == *name {
                proof {
                    lemma_find_named_extend(
                        self.spec_fb_names(),
                        name@,
                        k as int + 1,
                        self@.framebuffers.len() as int,
                    );
                }
                return Some(&self.framebuffers[k]);
            }
            k = k + 1;
        }
        None
    }

    /// Looks a pipeline up by name.
    #[verifier::loop_isolation(false)]
    pub fn pipeline<'a>(&'a self, name: &String) -> (r: Option<&'a PipelineEntry>)
        ensures
            match spec_find_named(
                self.spec_pipe_names(),
                name@,
                self@.pipelines.len() as int,
            ) {
                Some(i) => r is Some && r.unwrap()@ == self@.pipelines[i],
                None => r is None,
            },
    {
        let mut k: usize = 0;
        while k < self.pipelines.len()
            invariant
                k <= self@.pipelines.len(),
                spec_find_named(self.spec_pipe_names(), name@, k as int)
                    is None,
            decreases self@.pipelines.len() - k,
        {
            if self.pipelines[k].name == *name {
                proof {
                    lemma_find_named_extend(
                        self.spec_pipe_names(),
                        name@,
                        k as int + 1,
                        self@.pipelines.len() as int,
                    );
                }
                return Some(&self.pipelines[k]);
            }
            k = k + 1;
        }
        None
    }
}

/// What flows down the dependency edges into a node: its nearest upstream
/// providers, each named by the least description index among the
/// candidates, and whether an image acquire happens upstream.
#[derive(Debug, Clone, Copy, PartialEq, Eq, Structural)]
pub struct Heritage {
    pub rp: Option<usize>,
    pub subpass: Option<usize>,
    pub pipeline: Option<usize>,
    pub layout: Option<usize>,
    pub acquire: bool,
}

pub open spec fn spec_empty_heritage() -> Heritage {
    Heritage { rp: None, subpass: None, pipeline: None, layout: None, acquire: false }
}

pub open spec fn spec_min_opt(a: Option<usize>, b: Option<usize>) -> Option<usize> {
    match (a, b) {
        (Some(x), Some(y)) => if x <= y { Some(x) } else { Some(y) },
        (Some(x), None) => Some(x),
        (None, Some(y)) => Some(y),
        (None, None) => None,
    }
}

pub open spec fn spec_merge(a: Heritage, b: Heritage) -> Heritage {
    Heritage {
        rp: spec_min_opt(a.rp, b.rp),
        subpass: spec_min_opt(a.subpass, b.subpass),
        pipeline: spec_min_opt(a.pipeline, b.pipeline),
        layout: spec_min_opt(a.layout, b.layout),
        acquire: a.acquire || b.acquire,
    }
}

/// What `v` itself adds to the heritage of its descendants.
pub open spec fn spec_own_mark(h: Heritage, v: usize, kind: NodeBuilder) -> Heritage {
    match kind {
        NodeBuilder::RenderPass => Heritage { rp: spec_min_opt(h.rp, Some(v)), ..h },
        NodeBuilder::Subpass(_) => Heritage { subpass: spec_min_opt(h.subpass, Some(v)), ..h },
        NodeBuilder::GraphicsPipeline => Heritage {
            pipeline: spec_min_opt(h.pipeline, Some(v)),
            ..h
        },
        NodeBuilder::PipelineLayout => Heritage { layout: spec_min_opt(h.layout, Some(v)), ..h },
        NodeBuilder::AcquirePresentImage => Heritage { acquire: true, ..h },
        _ => h,
    }
}

/// The heritage flowing into `v`: the merge, over the first `k` edges, of
/// what each direct predecessor passes down.
pub open spec fn spec_inherit_row(
    edges: Seq<(usize, usize)>,
    flows: Seq<Heritage>,
    v: usize,
    k: int,
) -> Heritage
    decreases k,
{
    if k <= 0 {
        spec_empty_heritage()
    } else {
        let p = spec_inherit_row(edges, flows, v, k - 1);
        if edges[k - 1].1 == v {
            spec_merge(p, flows[edges[k - 1].0 as int])
        } else {
            p
        }
    }
}

/// Walks the topological order, assigning each node its inherited heritage
/// and what it passes on; returns `(flows, inherited)`.
pub open spec fn spec_heritage_from(
    nodes: Seq<DescNode>,
    edges: Seq<(usize, usize)>,
    order: Seq<usize>,
    t: int,
    flows: Seq<Heritage>,
    inh: Seq<Heritage>,
) -> (Seq<Heritage>, Seq<Heritage>)
    decreases order.len() - t,
{
    if t < 0 || t >= order.len() {
        (flows, inh)
    } else {
        let v = order[t];
        let h = spec_inherit_row(edges, flows, v, edges.len() as int);
        spec_heritage_from(
            nodes,
            edges,
            order,
            t + 1,
            flows.update(v as int, spec_own_mark(h, v, nodes[v as int].kind)),
            inh.update(v as int, h),
        )
    }
}

pub open spec fn spec_heritage(
    nodes: Seq<DescNode>,
    edges: Seq<(usize, usize)>,
    order: Seq<usize>,
) -> (Seq<Heritage>, Seq<Heritage>) {
    spec_heritage_from(
        nodes,
        edges,
        order,
        0,
        Seq::new(nodes.len(), |i: int| spec_empty_heritage()),
        Seq::new(nodes.len(), |i: int| spec_empty_heritage()),
    )
}

fn min_opt(a: Option<usize>, b: Option<usize>) -> (r: Option<usize>)
    ensures
        r == spec_min_opt(a, b),
{
    match (a, b) {
        (Some(x), Some(y)) => if x <= y {
            Some(x)
        } else {
            Some(y)
        },
        (Some(x), None) => Some(x),
        (None, Some(y)) => Some(y),
        (None, None) => None,
    }
}

fn merge(a: Heritage, b: Heritage) -> (r: Heritage)
    ensures
        r == spec_merge(a, b),
{
    Heritage {
        rp: min_opt(a.rp, b.rp),
        subpass: min_opt(a.subpass, b.subpass),
        pipeline: min_opt(a.pipeline, b.pipeline),
        layout: min_opt(a.layout, b.layout),
        acquire: a.acquire || b.acquire,
    }
}

fn empty_heritage() -> (r: Heritage)
    ensures
        r == spec_empty_heritage(),
{
    Heritage { rp: None, subpass: None, pipeline: None, layout: None, acquire: false }
}

fn own_mark(h: Heritage, v: usize, kind: &NodeBuilder) -> (r: Heritage)
    ensures
        r == spec_own_mark(h, v, *kind),
{
    match kind {
        NodeBuilder::RenderPass => Heritage { rp: min_opt(h.rp, Some(v)), ..h },
        NodeBuilder::Subpass(_) => Heritage { subpass: min_opt(h.subpass, Some(v)), ..h },
        NodeBuilder::GraphicsPipeline => Heritage { pipeline: min_opt(h.pipeline, Some(v)), ..h },
        NodeBuilder::PipelineLayout => Heritage { layout: min_opt(h.layout, Some(v)), ..h },
        NodeBuilder::AcquirePresentImage => Heritage { acquire: true, ..h },
        _ => h,
    }
}

/// Computes, for every node, what flows into it (`inherited`) and what it
/// passes downstream (`flows`), walking the topological order.
#[verifier::loop_isolation(false)]
fn compute_heritage(
    nodes: &Vec<DescNode>,
    edges: &Vec<(usize, usize)>,
    order: &Vec<usize>,
) -> (r: (Vec<Heritage>, Vec<Heritage>))
    requires
        graph::edges_wf(nodes@.len() as int, edges@),
        forall|t: int| 0 <= t < order@.len() ==> (#[trigger] order@[t]) < nodes@.len(),
    ensures
        (r.0@, r.1@) == spec_heritage(nodes@, edges@, order@),
{
    let n = nodes.len();
    let mut flows: Vec<Heritage> = Vec::new();
    let mut inh: Vec<Heritage> = Vec::new();
    let mut i: usize = 0;
    while i < n
        invariant
            i <= n,
            flows@.len() == i as int,
            inh@.len() == i as int,
            forall|t: int| 0 <= t < i ==> (#[trigger] flows@[t]) == spec_empty_heritage(),
            forall|t: int| 0 <= t < i ==> (#[trigger] inh@[t]) == spec_empty_heritage(),
        decreases n - i,
    {
        flows.push(empty_heritage());
        inh.push(empty_heritage());
        i = i + 1;
    }
    proof {
        assert(flows@ =~= Seq::new(nodes@.len(), |t: int| spec_empty_heritage()));
        assert(inh@ =~= Seq::new(nodes@.len(), |t: int| spec_empty_heritage()));
    }
    let mut t: usize = 0;
    while t < order.len()
        invariant
            t <= order@.len(),
            flows@.len() == n as int,
            inh@.len() == n as int,
            spec_heritage_from(nodes@, edges@, order@, t as int, flows@, inh@) == spec_heritage(
                nodes@,
                edges@,
                order@,
            ),
        decreases order@.len() - t,
    {
        let v = order[t];
        let mut h = empty_heritage();
        let mut k: usize = 0;
        while k < edges.len()
            invariant
                k <= edges@.len(),
                h == spec_inherit_row(edges@, flows@, v, k as int),
            decreases edges@.len() - k,
        {
            let e = edges[k];
            if e.1 == v {
                h = merge(h, flows[e.0]);
            }
            k = k + 1;
        }
        let fv = own_mark(h, v, &nodes[v].kind);
        inh[v] = h;
        flows[v] = fv;
        t = t + 1;
    }
    (flows, inh)
}

/// Sorts key/payload pairs ascending by key; among equal keys the earlier
/// pair stays earlier, so the result is the unique stable order.
pub open spec fn spec_insert_sorted(sorted: Seq<(u8, usize)>, item: (u8, usize)) -> Seq<(u8, usize)>
    decreases sorted.len(),
{
    if sorted.len() == 0 {
        seq![item]
    } else if sorted.last().0 <= item.0 {
        sorted.push(item)
    } else {
        spec_insert_sorted(sorted.drop_last(), item).push(sorted.last())
    }
}

pub open spec fn spec_sort_pairs_from(input: Seq<(u8, usize)>, i: int, acc: Seq<(u8, usize)>) -> Seq<
    (u8, usize),
>
    decreases input.len() - i,
{
    if i < 0 || i >= input.len() {
        acc
    } else {
        spec_sort_pairs_from(input, i + 1, spec_insert_sorted(acc, input[i]))
    }
}

/// The stable ascending order of the pairs by key.
pub open spec fn spec_sort_pairs(input: Seq<(u8, usize)>) -> Seq<(u8, usize)> {
    spec_sort_pairs_from(input, 0, Seq::empty())
}

pub open spec fn spec_sorted_by_key(s: Seq<(u8, usize)>) -> bool {
    forall|a: int, b: int| 0 <= a < b < s.len() ==> (#[trigger] s[a]).0 <= (#[trigger] s[b]).0
}

proof fn lemma_insert_sorted_keeps(sorted: Seq<(u8, usize)>, item: (u8, usize))
    requires
        spec_sorted_by_key(sorted),
    ensures
        spec_sorted_by_key(spec_insert_sorted(sorted, item)),
        spec_insert_sorted(sorted, item).len() == sorted.len() + 1,
    decreases sorted.len(),
{
    if sorted.len() == 0 {
    } else if sorted.last().0 <= item.0 {
    } else {
        assert(spec_sorted_by_key(sorted.drop_last()));
        lemma_insert_sorted_keeps(sorted.drop_last(), item);
        let inner = spec_insert_sorted(sorted.drop_last(), item);
        let out = inner.push(sorted.last());
        assert forall|a: int, b: int|
            0 <= a < b < out.len() implies (#[trigger] out[a]).0 <= (#[trigger] out[b]).0 by {
            if b == out.len() - 1 {
                if a < inner.len() {
                    lemma_insert_last_bound(sorted.drop_last(), item, a);
                }
            }
        }
    }
}

/// Every element of an insertion result is bounded by the larger of the old
/// maximum (the last element) and the inserted key.
proof fn lemma_insert_last_bound(sorted: Seq<(u8, usize)>, item: (u8, usize), a: int)
    requires
        spec_sorted_by_key(sorted),
        0 <= a < spec_insert_sorted(sorted, item).len(),
    ensures
        (spec_insert_sorted(sorted, item)[a]).0 <= item.0 || sorted.len() > 0
            && (spec_insert_sorted(sorted, item)[a]).0 <= sorted.last().0,
    decreases sorted.len(),
{
    if sorted.len() == 0 {
    } else if sorted.last().0 <= item.0 {
        if a < sorted.len() {
        }
    } else {
        let inner = spec_insert_sorted(sorted.drop_last(), item);
        lemma_insert_sorted_keeps(sorted.drop_last(), item);
        if a < inner.len() {
            lemma_insert_last_bound(sorted.drop_last(), item, a);
            if sorted.len() > 1 {
                assert(sorted.drop_last().last() == sorted[sorted.len() - 2]);
                assert(sorted[sorted.len() - 2].0 <= sorted.last().0);
            }
        }
    }
}

pub proof fn lemma_sort_pairs_from_sorted(input: Seq<(u8, usize)>, i: int, acc: Seq<(u8, usize)>)
    requires
        spec_sorted_by_key(acc),
    ensures
        spec_sorted_by_key(spec_sort_pairs_from(input, i, acc)),
    decreases input.len() - i,
{
    if 0 <= i < input.len() {
        lemma_insert_sorted_keeps(acc, input[i]);
        lemma_sort_pairs_from_sorted(input, i + 1, spec_insert_sorted(acc, input[i]));
    }
}

/// The sorted pair list is ascending by key.
pub proof fn lemma_sort_pairs_sorted(input: Seq<(u8, usize)>)
    ensures
        spec_sorted_by_key(spec_sort_pairs(input)),
{
    lemma_sort_pairs_from_sorted(input, 0, Seq::empty());
}

proof fn lemma_insert_sorted_elems(s: Seq<(u8, usize)>, item: (u8, usize), x: (u8, usize))
    requires
        spec_insert_sorted(s, item).contains(x),
    ensures
        s.contains(x) || x == item,
    decreases s.len(),
{
    if s.len() == 0 {
    } else if s.last().0 <= item.0 {
    } else {
        let inner = spec_insert_sorted(s.drop_last(), item);
        let out = inner.push(s.last());
        if x == s.last() {
            assert(s.contains(x)) by {
                assert(s[s.len() - 1] == x);
            }
        } else {
            assert(inner.contains(x)) by {
                let j = choose|j: int| 0 <= j < out.len() && out[j] == x;
                assert(out[j] == inner[j]);
            }
            lemma_insert_sorted_elems(s.drop_last(), item, x);
            if s.drop_last().contains(x) {
                let j = choose|j: int| 0 <= j < s.drop_last().len() && s.drop_last()[j] == x;
                assert(s[j] == x);
            }
        }
    }
}

proof fn lemma_sort_from_elems(input: Seq<(u8, usize)>, i: int, acc: Seq<(u8, usize)>, x: (
    u8,
    usize,
))
    requires
        spec_sort_pairs_from(input, i, acc).contains(x),
    ensures
        acc.contains(x) || input.contains(x),
    decreases input.len() - i,
{
    if 0 <= i < input.len() {
        lemma_sort_from_elems(input, i + 1, spec_insert_sorted(acc, input[i]), x);
        if spec_insert_sorted(acc, input[i]).contains(x) {
            lemma_insert_sorted_elems(acc, input[i], x);
        }
    }
}

/// Sorting introduces no new pairs: every pair of the sorted list occurs in
/// the input.
pub proof fn lemma_sort_pairs_elems(input: Seq<(u8, usize)>, x: (u8, usize))
    requires
        spec_sort_pairs(input).contains(x),
    ensures
        input.contains(x),
{
    lemma_sort_from_elems(input, 0, Seq::empty(), x);
}

/// Insertion sort over key/payload pairs, stable among equal keys.
#[verifier::loop_isolation(false)]
fn sort_pairs(input: &Vec<(u8, usize)>) -> (r: Vec<(u8, usize)>)
    ensures
        r@ == spec_sort_pairs(input@),
        spec_sorted_by_key(r@),
{
    let mut acc: Vec<(u8, usize)> = Vec::new();
    let mut i: usize = 0;
    while i < input.len()
        invariant
            i <= input@.len(),
            spec_sort_pairs_from(input@, i as int, acc@) == spec_sort_pairs(input@),
            spec_sorted_by_key(acc@),
        decreases input@.len() - i,
    {
        let item = input[i];
        proof {
            lemma_insert_sorted_keeps(acc@, item);
        }
        let ghost target = spec_insert_sorted(acc@, item);
        // find the insertion point: after every key less than or equal to
        // the new key
        let mut pos: usize = acc.len();
        proof {
            assert(acc@.subrange(0, pos as int) =~= acc@);
            assert(acc@.subrange(pos as int, acc@.len() as int) =~= Seq::<(u8, usize)>::empty());
            assert(target =~= spec_insert_sorted(acc@.subrange(0, pos as int), item)
                + acc@.subrange(pos as int, acc@.len() as int));
        }
        while pos > 0 && acc[pos - 1].0 > item.0
            invariant
                pos <= acc@.len(),
                target == spec_insert_sorted(acc@.subrange(0, pos as int), item) + acc@.subrange(
                    pos as int,
                    acc@.len() as int,
                ),
            decreases pos,
        {
            proof {
                let pre = acc@.subrange(0, pos as int);
                let pre2 = acc@.subrange(0, pos as int - 1);
                assert(pre.last() == acc@[pos - 1]);
                assert(pre.drop_last() =~= pre2);
                assert(spec_sorted_by_key(pre2));
                lemma_insert_sorted_keeps(pre2, item);
                assert(spec_insert_sorted(pre, item) == spec_insert_sorted(pre2, item).push(
                    pre.last(),
                ));
                assert(spec_insert_sorted(pre2, item).push(pre.last()) + acc@.subrange(
                    pos as int,
                    acc@.len() as int,
                ) =~= spec_insert_sorted(pre2, item) + acc@.subrange(
                    pos as int - 1,
                    acc@.len() as int,
                ));
            }
            pos = pos - 1;
        }
        proof {
            let pre = acc@.subrange(0, pos as int);
            if pos == 0 {
                assert(pre =~= Seq::<(u8, usize)>::empty());
                assert(spec_insert_sorted(pre, item) =~= seq![item]);
                assert(seq![item] =~= pre.push(item));
            } else {
                assert(pre.last() == acc@[pos - 1]);
                assert(acc@[pos - 1].0 <= item.0);
                assert(spec_insert_sorted(pre, item) == pre.push(item));
            }
            assert(target =~= acc@.insert(pos as int, item));
        }
        acc.insert(pos, item);
        proof {
            assert(acc@ =~= target);
        }
        i = i + 1;
    }
    acc
}

/// All node references in a heritage stay below `n`.
pub open spec fn spec_heritage_bounded(h: Heritage, n: int) -> bool {
    &&& match h.rp {
        Some(x) => x < n,
        None => true,
    }
    &&& match h.subpass {
        Some(x) => x < n,
        None => true,
    }
    &&& match h.pipeline {
        Some(x) => x < n,
        None => true,
    }
    &&& match h.layout {
        Some(x) => x < n,
        None => true,
    }
}

proof fn lemma_inherit_row_bounded(
    edges: Seq<(usize, usize)>,
    flows: Seq<Heritage>,
    v: usize,
    k: int,
    n: int,
)
    requires
        graph::edges_wf(n, edges),
        flows.len() == n,
        forall|t: int| 0 <= t < n ==> spec_heritage_bounded(#[trigger] flows[t], n),
        k <= edges.len(),
    ensures
        spec_heritage_bounded(spec_inherit_row(edges, flows, v, k), n),
    decreases k,
{
    if k > 0 {
        lemma_inherit_row_bounded(edges, flows, v, k - 1, n);
    }
}

proof fn lemma_heritage_from_bounded(
    nodes: Seq<DescNode>,
    edges: Seq<(usize, usize)>,
    order: Seq<usize>,
    t: int,
    flows: Seq<Heritage>,
    inh: Seq<Heritage>,
)
    requires
        graph::edges_wf(nodes.len() as int, edges),
        forall|u: int| 0 <= u < order.len() ==> (#[trigger] order[u]) < nodes.len(),
        flows.len() == nodes.len(),
        inh.len() == nodes.len(),
        forall|u: int|
            0 <= u < nodes.len() ==> spec_heritage_bounded(
                #[trigger] flows[u],
                nodes.len() as int,
            ),
        forall|u: int|
            0 <= u < nodes.len() ==> spec_heritage_bounded(#[trigger] inh[u], nodes.len() as int),
    ensures
        spec_heritage_from(nodes, edges, order, t, flows, inh).0.len() == nodes.len(),
        spec_heritage_from(nodes, edges, order, t, flows, inh).1.len() == nodes.len(),
        forall|u: int|
            0 <= u < nodes.len() ==> spec_heritage_bounded(
                #[trigger] spec_heritage_from(nodes, edges, order, t, flows, inh).0[u],
                nodes.len() as int,
            ),
        forall|u: int|
            0 <= u < nodes.len() ==> spec_heritage_bounded(
                #[trigger] spec_heritage_from(nodes, edges, order, t, flows, inh).1[u],
                nodes.len() as int,
            ),
    decreases order.len() - t,
{
    let n = nodes.len() as int;
    if 0 <= t < order.len() {
        let v = order[t];
        let h = spec_inherit_row(edges, flows, v, edges.len() as int);
        lemma_inherit_row_bounded(edges, flows, v, edges.len() as int, n);
        assert(spec_heritage_bounded(spec_own_mark(h, v, nodes[v as int].kind), n));
        lemma_heritage_from_bounded(
            nodes,
            edges,
            order,
            t + 1,
            flows.update(v as int, spec_own_mark(h, v, nodes[v as int].kind)),
            inh.update(v as int, h),
        );
    }
}

/// Every node reference a computed heritage carries is a valid description
/// index.
pub proof fn lemma_heritage_bounded(
    nodes: Seq<DescNode>,
    edges: Seq<(usize, usize)>,
    order: Seq<usize>,
)
    requires
        graph::edges_wf(nodes.len() as int, edges),
        forall|u: int| 0 <= u < order.len() ==> (#[trigger] order[u]) < nodes.len(),
    ensures
        spec_heritage(nodes, edges, order).0.len() == nodes.len(),
        spec_heritage(nodes, edges, order).1.len() == nodes.len(),
        forall|u: int|
            0 <= u < nodes.len() ==> spec_heritage_bounded(
                #[trigger] spec_heritage(nodes, edges, order).0[u],
                nodes.len() as int,
            ),
        forall|u: int|
            0 <= u < nodes.len() ==> spec_heritage_bounded(
                #[trigger] spec_heritage(nodes, edges, order).1[u],
                nodes.len() as int,
            ),
{
    lemma_heritage_from_bounded(
        nodes,
        edges,
        order,
        0,
        Seq::new(nodes.len(), |i: int| spec_empty_heritage()),
        Seq::new(nodes.len(), |i: int| spec_empty_heritage()),
    );
}

/// The least render pass that `s` feeds directly, scanning the first `k`
/// edges.
pub open spec fn spec_owner_scan(
    nodes: Seq<DescNode>,
    edges: Seq<(usize, usize)>,
    s: usize,
    k: int,
) -> Option<usize>
    decreases k,
{
    if k <= 0 {
        None
    } else {
        let p = spec_owner_scan(nodes, edges, s, k - 1);
        if edges[k - 1].0 == s && nodes[edges[k - 1].1 as int].kind is RenderPass {
            spec_min_opt(p, Some(edges[k - 1].1))
        } else {
            p
        }
    }
}

/// The render pass a subpass belongs to: its nearest upstream render pass
/// when one exists, otherwise the least render pass it feeds directly.
pub open spec fn spec_owner_of(
    nodes: Seq<DescNode>,
    edges: Seq<(usize, usize)>,
    inh: Seq<Heritage>,
    s: int,
) -> Option<usize> {
    if nodes[s].kind is Subpass {
        match inh[s].rp {
            Some(r) => Some(r),
            None => spec_owner_scan(nodes, edges, s as usize, edges.len() as int),
        }
    } else {
        None
    }
}

pub open spec fn spec_owners(
    nodes: Seq<DescNode>,
    edges: Seq<(usize, usize)>,
    inh: Seq<Heritage>,
) -> Seq<Option<usize>> {
    Seq::new(nodes.len(), |s: int| spec_owner_of(nodes, edges, inh, s))
}

#[verifier::loop_isolation(false)]
fn compute_owners(
    nodes: &Vec<DescNode>,
    edges: &Vec<(usize, usize)>,
    inh: &Vec<Heritage>,
) -> (r: Vec<Option<usize>>)
    requires
        graph::edges_wf(nodes@.len() as int, edges@),
        inh@.len() == nodes@.len(),
        forall|u: int|
            0 <= u < nodes@.len() ==> spec_heritage_bounded(
                #[trigger] inh@[u],
                nodes@.len() as int,
            ),
    ensures
        r@ == spec_owners(nodes@, edges@, inh@),
        r@.len() == nodes@.len(),
        forall|u: int|
            0 <= u < r@.len() ==> match #[trigger] r@[u] {
                Some(x) => x < nodes@.len(),
                None => true,
            },
{
    let n = nodes.len();
    let mut r: Vec<Option<usize>> = Vec::new();
    let mut s: usize = 0;
    while s < n
        invariant
            s <= n,
            r@.len() == s as int,
            forall|u: int| 0 <= u < s ==> (#[trigger] r@[u]) == spec_owner_of(
                nodes@,
                edges@,
                inh@,
                u,
            ),
            forall|u: int|
                0 <= u < s ==> match #[trigger] r@[u] {
                    Some(x) => x < nodes@.len(),
                    None => true,
                },
        decreases n - s,
    {
        let own: Option<usize> = match &nodes[s].kind {
            NodeBuilder::Subpass(_) => {
                match inh[s].rp {
                    Some(rp) => Some(rp),
                    None => {
                        let mut acc: Option<usize> = None;
                        let mut k: usize = 0;
                        while k < edges.len()
                            invariant
                                k <= edges@.len(),
                                acc == spec_owner_scan(nodes@, edges@, s, k as int),
                                match acc {
                                    Some(x) => x < nodes@.len(),
                                    None => true,
                                },
                            decreases edges@.len() - k,
                        {
                            let e = edges[k];
                            if e.0 == s {
                                let is_rp = match &nodes[e.1].kind {
                                    NodeBuilder::RenderPass => true,
                                    _ => false,
                                };
                                if is_rp {
                                    acc = min_opt(acc, Some(e.1));
                                }
                            }
                            k = k + 1;
                        }
                        acc
                    },
                }
            },
            _ => None,
        };
        r.push(own);
        s = s + 1;
    }
    proof {
        assert(r@ =~= spec_owners(nodes@, edges@, inh@));
    }
    r
}

/// Whether any render pass of the graph has an image acquire upstream; when
/// one does, the compiled graph carries one shared acquire node.
pub open spec fn spec_any_acquire_upto(nodes: Seq<DescNode>, inh: Seq<Heritage>, i: int) -> bool
    decreases i,
{
    if i <= 0 {
        false
    } else {
        spec_any_acquire_upto(nodes, inh, i - 1) || (nodes[i - 1].kind is RenderPass && inh[i
            - 1].acquire)
    }
}

pub open spec fn spec_any_acquire(nodes: Seq<DescNode>, inh: Seq<Heritage>) -> bool {
    spec_any_acquire_upto(nodes, inh, nodes.len() as int)
}

#[verifier::loop_isolation(false)]
fn compute_any_acquire(nodes: &Vec<DescNode>, inh: &Vec<Heritage>) -> (r: bool)
    requires
        inh@.len() == nodes@.len(),
    ensures
        r == spec_any_acquire(nodes@, inh@),
{
    let mut r: bool = false;
    let mut i: usize = 0;
    while i < nodes.len()
        invariant
            i <= nodes@.len(),
            r == spec_any_acquire_upto(nodes@, inh@, i as int),
        decreases nodes@.len() - i,
    {
        let is_rp = match &nodes[i].kind {
            NodeBuilder::RenderPass => true,
            _ => false,
        };
        if is_rp && inh[i].acquire {
            r = true;
        }
        i = i + 1;
    }
    r
}

/// Clamps an integer into the `u64` range.
pub open spec fn spec_sat64(x: int) -> u64 {
    if x > u64::MAX {
        u64::MAX
    } else if x < 0 {
        0
    } else {
        x as u64
    }
}

fn sat_add64(a: u64, b: u64) -> (r: u64)
    ensures
        r == spec_sat64(a + b),
{
    a.saturating_add(b)
}

fn sat_mul64(a: u64, b: u64) -> (r: u64)
    ensures
        r == spec_sat64(a * b),
{
    match a.checked_mul(b) {
        Some(x) => x,
        None => u64::MAX,
    }
}

/// The attachment key/class pair a node contributes: class is encoded into
/// the payload (0 for color, 1 for depth) so sorted pairs rebuild the
/// attachment list without further lookups.
pub open spec fn spec_att_pair(kind: NodeBuilder) -> Option<(u8, usize)> {
    match kind {
        NodeBuilder::SwapchainAttachment(ix) => Some((ix, 0usize)),
        NodeBuilder::DepthAttachment(ix) => Some((ix, 1usize)),
        _ => None,
    }
}

/// The attachments among the direct inputs of `v`, in edge order.
pub open spec fn spec_collect_atts(
    nodes: Seq<DescNode>,
    edges: Seq<(usize, usize)>,
    v: usize,
    k: int,
) -> Seq<(u8, usize)>
    decreases k,
{
    if k <= 0 {
        Seq::empty()
    } else {
        let p = spec_collect_atts(nodes, edges, v, k - 1);
        if edges[k - 1].1 == v {
            match spec_att_pair(nodes[edges[k - 1].0 as int].kind) {
                Some(pr) => p.push(pr),
                None => p,
            }
        } else {
            p
        }
    }
}

#[verifier::loop_isolation(false)]
fn collect_atts(nodes: &Vec<DescNode>, edges: &Vec<(usize, usize)>, v: usize) -> (r: Vec<
    (u8, usize),
>)
    requires
        graph::edges_wf(nodes@.len() as int, edges@),
    ensures
        r@ == spec_collect_atts(nodes@, edges@, v, edges@.len() as int),
{
    let mut r: Vec<(u8, usize)> = Vec::new();
    let mut k: usize = 0;
    while k < edges.len()
        invariant
            k <= edges@.len(),
            r@ == spec_collect_atts(nodes@, edges@, v, k as int),
        decreases edges@.len() - k,
    {
        let e = edges[k];
        if e.1 == v {
            match &nodes[e.0].kind {
                NodeBuilder::SwapchainAttachment(ix) => r.push((*ix, 0)),
                NodeBuilder::DepthAttachment(ix) => r.push((*ix, 1)),
                _ => {},
            }
        }
        k = k + 1;
    }
    r
}

/// Rebuilds attachment descriptions from sorted key/class pairs.
pub open spec fn spec_atts_of(pairs: Seq<(u8, usize)>) -> Seq<AttachmentDesc> {
    Seq::new(
        pairs.len(),
        |i: int|
            AttachmentDesc {
                index: pairs[i].0,
                class: if pairs[i].1 == 0 {
                    AttachmentClass::Color
                } else {
                    AttachmentClass::Depth
                },
            },
    )
}

#[verifier::loop_isolation(false)]
fn atts_of(pairs: &Vec<(u8, usize)>) -> (r: Vec<AttachmentDesc>)
    ensures
        r@ == spec_atts_of(pairs@),
{
    let mut r: Vec<AttachmentDesc> = Vec::new();
    let mut i: usize = 0;
    while i < pairs.len()
        invariant
            i <= pairs@.len(),
            r@.len() == i as int,
            forall|t: int| 0 <= t < i ==> (#[trigger] r@[t]) == spec_atts_of(pairs@)[t],
        decreases pairs@.len() - i,
    {
        let p = pairs[i];
        r.push(
            AttachmentDesc {
                index: p.0,
                class: if p.1 == 0 {
                    AttachmentClass::Color
                } else {
                    AttachmentClass::Depth
                },
            },
        );
        i = i + 1;
    }
    proof {
        assert(r@ =~= spec_atts_of(pairs@));
    }
    r
}

/// The subpasses owned by render pass `v`, as (subpass index, description
/// index) pairs in description order.
pub open spec fn spec_collect_members(
    nodes: Seq<DescNode>,
    owner: Seq<Option<usize>>,
    v: usize,
    i: int,
) -> Seq<(u8, usize)>
    decreases i,
{
    if i <= 0 {
        Seq::empty()
    } else {
        let p = spec_collect_members(nodes, owner, v, i - 1);
        if owner[i - 1] == Some(v) {
            match nodes[i - 1].kind {
                NodeBuilder::Subpass(ix) => p.push((ix, (i - 1) as usize)),
                _ => p,
            }
        } else {
            p
        }
    }
}

#[verifier::loop_isolation(false)]
fn collect_members(nodes: &Vec<DescNode>, owner: &Vec<Option<usize>>, v: usize) -> (r: Vec<
    (u8, usize),
>)
    requires
        owner@.len() == nodes@.len(),
    ensures
        r@ == spec_collect_members(nodes@, owner@, v, nodes@.len() as int),
        forall|t: int| 0 <= t < r@.len() ==> (#[trigger] r@[t]).1 < nodes@.len(),
{
    let mut r: Vec<(u8, usize)> = Vec::new();
    let mut i: usize = 0;
    while i < nodes.len()
        invariant
            i <= nodes@.len(),
            r@ == spec_collect_members(nodes@, owner@, v, i as int),
            forall|t: int| 0 <= t < r@.len() ==> (#[trigger] r@[t]).1 < nodes@.len(),
        decreases nodes@.len() - i,
    {
        let owned = match owner[i] {
            Some(x) => x == v,
            None => false,
        };
        if owned {
            match &nodes[i].kind {
                NodeBuilder::Subpass(ix) => r.push((*ix, i)),
                _ => {},
            }
        }
        i = i + 1;
    }
    r
}

/// The dependency chain of a render pass with `c` subpasses: an external
/// barrier into the first subpass, then each subpass depending on the one
/// before it.
pub open spec fn spec_subpass_chain(c: int) -> Seq<SubpassDep> {
    seq![SubpassDep { src: EXTERNAL_SUBPASS, dst: 0 }] + Seq::new(
        if c >= 1 {
            (c - 1) as nat
        } else {
            0
        },
        |i: int| SubpassDep { src: i as u32, dst: (i + 1) as u32 },
    )
}

#[verifier::loop_isolation(false)]
fn subpass_chain(c: usize) -> (r: Vec<SubpassDep>)
    ensures
        r@ == spec_subpass_chain(c as int),
{
    let mut r: Vec<SubpassDep> = Vec::new();
    r.push(SubpassDep { src: EXTERNAL_SUBPASS, dst: 0 });
    let mut i: usize = 1;
    while i < c
        invariant
            1 <= i,
            i <= c || i == 1,
            r@.len() == i as int,
            r@[0] == (SubpassDep { src: EXTERNAL_SUBPASS, dst: 0 }),
            forall|t: int| 1 <= t < i ==> (#[trigger] r@[t]) == (SubpassDep {
                src: (t - 1) as u32,
                dst: t as u32,
            }),
        decreases c - i,
    {
        r.push(
            SubpassDep {
                src: #[verifier::truncate] ((i - 1) as u32),
                dst: #[verifier::truncate] (i as u32),
            },
        );
        i = i + 1;
    }
    proof {
        let spec = spec_subpass_chain(c as int);
        assert(spec.len() == r@.len());
        assert forall|t: int| 0 <= t < r@.len() implies r@[t] == spec[t] by {
            if t >= 1 {
                assert(spec[t] == (SubpassDep { src: (t - 1) as u32, dst: t as u32 }));
            }
        }
        assert(r@ =~= spec);
    }
    r
}

/// The keys of a pair list, in order.
pub open spec fn spec_keys(pairs: Seq<(u8, usize)>) -> Seq<u8> {
    Seq::new(pairs.len(), |i: int| pairs[i].0)
}

#[verifier::loop_isolation(false)]
fn keys_of(pairs: &Vec<(u8, usize)>) -> (r: Vec<u8>)
    ensures
        r@ == spec_keys(pairs@),
{
    let mut r: Vec<u8> = Vec::new();
    let mut i: usize = 0;
    while i < pairs.len()
        invariant
            i <= pairs@.len(),
            r@.len() == i as int,
            forall|t: int| 0 <= t < i ==> (#[trigger] r@[t]) == pairs@[t].0,
        decreases pairs@.len() - i,
    {
        r.push(pairs[i].0);
        i = i + 1;
    }
    proof {
        assert(r@ =~= spec_keys(pairs@));
    }
    r
}

/// The descriptor bindings among the direct inputs of `v`, in edge order.
pub open spec fn spec_collect_bindings(
    nodes: Seq<DescNode>,
    edges: Seq<(usize, usize)>,
    v: usize,
    k: int,
) -> Seq<BindingDesc>
    decreases k,
{
    if k <= 0 {
        Seq::empty()
    } else {
        let p = spec_collect_bindings(nodes, edges, v, k - 1);
        if edges[k - 1].1 == v {
            match nodes[edges[k - 1].0 as int].kind {
                NodeBuilder::DescriptorBinding(b, ty, stage, c) => p.push(
                    BindingDesc { binding: b, descriptor_type: ty, stage: stage, count: c },
                ),
                _ => p,
            }
        } else {
            p
        }
    }
}

#[verifier::loop_isolation(false)]
fn collect_bindings(nodes: &Vec<DescNode>, edges: &Vec<(usize, usize)>, v: usize) -> (r: Vec<
    BindingDesc,
>)
    requires
        graph::edges_wf(nodes@.len() as int, edges@),
    ensures
        r@ == spec_collect_bindings(nodes@, edges@, v, edges@.len() as int),
{
    let mut r: Vec<BindingDesc> = Vec::new();
    let mut k: usize = 0;
    while k < edges.len()
        invariant
            k <= edges@.len(),
            r@ == spec_collect_bindings(nodes@, edges@, v, k as int),
        decreases edges@.len() - k,
    {
        let e = edges[k];
        if e.1 == v {
            match &nodes[e.0].kind {
                NodeBuilder::DescriptorBinding(b, ty, stage, c) => {
                    r.push(
                        BindingDesc {
                            binding: *b,
                            descriptor_type: *ty,
                            stage: *stage,
                            count: *c,
                        },
                    );
                },
                _ => {},
            }
        }
        k = k + 1;
    }
    r
}

/// The saturating sum of the binding counts.
pub open spec fn spec_sum_counts(binds: Seq<BindingDesc>, i: int) -> u64
    decreases i,
{
    if i <= 0 {
        0u64
    } else {
        spec_sat64(spec_sum_counts(binds, i - 1) + binds[i - 1].count)
    }
}

#[verifier::loop_isolation(false)]
fn sum_counts(binds: &Vec<BindingDesc>) -> (r: u64)
    ensures
        r == spec_sum_counts(binds@, binds@.len() as int),
{
    let mut r: u64 = 0;
    let mut i: usize = 0;
    while i < binds.len()
        invariant
            i <= binds@.len(),
            r == spec_sum_counts(binds@, i as int),
        decreases binds@.len() - i,
    {
        r = sat_add64(r, binds[i].count as u64);
        i = i + 1;
    }
    r
}

/// The resolved layout handles of the descriptor sets among the direct
/// inputs of `v`, in edge order.
pub open spec fn spec_collect_set_layouts(
    nodes: Seq<DescNode>,
    edges: Seq<(usize, usize)>,
    dset_layout: Seq<Option<u64>>,
    v: usize,
    k: int,
) -> Seq<u64>
    decreases k,
{
    if k <= 0 {
        Seq::empty()
    } else {
        let p = spec_collect_set_layouts(nodes, edges, dset_layout, v, k - 1);
        if edges[k - 1].1 == v && nodes[edges[k - 1].0 as int].kind is DescriptorSet {
            match dset_layout[edges[k - 1].0 as int] {
                Some(h) => p.push(h),
                None => p,
            }
        } else {
            p
        }
    }
}

#[verifier::loop_isolation(false)]
fn collect_set_layouts(
    nodes: &Vec<DescNode>,
    edges: &Vec<(usize, usize)>,
    dset_layout: &Vec<Option<u64>>,
    v: usize,
) -> (r: Vec<u64>)
    requires
        graph::edges_wf(nodes@.len() as int, edges@),
        dset_layout@.len() == nodes@.len(),
    ensures
        r@ == spec_collect_set_layouts(nodes@, edges@, dset_layout@, v, edges@.len() as int),
{
    let mut r: Vec<u64> = Vec::new();
    let mut k: usize = 0;
    while k < edges.len()
        invariant
            k <= edges@.len(),
            r@ == spec_collect_set_layouts(nodes@, edges@, dset_layout@, v, k as int),
        decreases edges@.len() - k,
    {
        let e = edges[k];
        if e.1 == v {
            let is_ds = match &nodes[e.0].kind {
                NodeBuilder::DescriptorSet(_) => true,
                _ => false,
            };
            if is_ds {
                match dset_layout[e.0] {
                    Some(h) => r.push(h),
                    None => {},
                }
            }
        }
        k = k + 1;
    }
    r
}

/// The shader paths of the given stage among the direct inputs of `v`, in
/// edge order; `vertex` selects vertex over fragment shaders.
pub open spec fn spec_collect_shaders(
    nodes: Seq<DescNode>,
    edges: Seq<(usize, usize)>,
    v: usize,
    vertex: bool,
    k: int,
) -> Seq<Seq<char>>
    decreases k,
{
    if k <= 0 {
        Seq::empty()
    } else {
        let p = spec_collect_shaders(nodes, edges, v, vertex, k - 1);
        if edges[k - 1].1 == v {
            match nodes[edges[k - 1].0 as int].kind {
                NodeBuilder::VertexShader(path) => if vertex {
                    p.push(path@)
                } else {
                    p
                },
                NodeBuilder::FragmentShader(path) => if !vertex {
                    p.push(path@)
                } else {
                    p
                },
                _ => p,
            }
        } else {
            p
        }
    }
}

#[verifier::loop_isolation(false)]
fn collect_shaders(
    nodes: &Vec<DescNode>,
    edges: &Vec<(usize, usize)>,
    v: usize,
    vertex: bool,
) -> (r: Vec<String>)
    requires
        graph::edges_wf(nodes@.len() as int, edges@),
    ensures
        Seq::new(r@.len(), |i: int| r@[i]@) == spec_collect_shaders(
            nodes@,
            edges@,
            v,
            vertex,
            edges@.len() as int,
        ),
{
    let mut r: Vec<String> = Vec::new();
    let mut k: usize = 0;
    while k < edges.len()
        invariant
            k <= edges@.len(),
            Seq::new(r@.len(), |i: int| r@[i]@) == spec_collect_shaders(
                nodes@,
                edges@,
                v,
                vertex,
                k as int,
            ),
        decreases edges@.len() - k,
    {
        let e = edges[k];
        if e.1 == v {
            match &nodes[e.0].kind {
                NodeBuilder::VertexShader(path) => if vertex {
                    r.push(path.clone());
                },
                NodeBuilder::FragmentShader(path) => if !vertex {
                    r.push(path.clone());
                },
                _ => {},
            }
        }
        proof {
            assert(Seq::new(r@.len(), |i: int| r@[i]@) =~= spec_collect_shaders(
                nodes@,
                edges@,
                v,
                vertex,
                k as int + 1,
            ));
        }
        k = k + 1;
    }
    r
}

/// The vertex buffer bindings among the direct inputs of `v`, in edge
/// order.
pub open spec fn spec_collect_vbindings(
    nodes: Seq<DescNode>,
    edges: Seq<(usize, usize)>,
    v: usize,
    k: int,
) -> Seq<VertexBindingDesc>
    decreases k,
{
    if k <= 0 {
        Seq::empty()
    } else {
        let p = spec_collect_vbindings(nodes, edges, v, k - 1);
        if edges[k - 1].1 == v {
            match nodes[edges[k - 1].0 as int].kind {
                NodeBuilder::VertexInputBinding(b, stride, rate) => p.push(
                    VertexBindingDesc { binding: b, stride: stride, rate: rate },
                ),
                _ => p,
            }
        } else {
            p
        }
    }
}

#[verifier::loop_isolation(false)]
fn collect_vbindings(nodes: &Vec<DescNode>, edges: &Vec<(usize, usize)>, v: usize) -> (r: Vec<
    VertexBindingDesc,
>)
    requires
        graph::edges_wf(nodes@.len() as int, edges@),
    ensures
        r@ == spec_collect_vbindings(nodes@, edges@, v, edges@.len() as int),
{
    let mut r: Vec<VertexBindingDesc> = Vec::new();
    let mut k: usize = 0;
    while k < edges.len()
        invariant
            k <= edges@.len(),
            r@ == spec_collect_vbindings(nodes@, edges@, v, k as int),
        decreases edges@.len() - k,
    {
        let e = edges[k];
        if e.1 == v {
            match &nodes[e.0].kind {
                NodeBuilder::VertexInputBinding(b, stride, rate) => {
                    r.push(VertexBindingDesc { binding: *b, stride: *stride, rate: *rate });
                },
                _ => {},
            }
        }
        k = k + 1;
    }
    r
}

/// The vertex attributes among the direct inputs of `v`, in edge order.
pub open spec fn spec_collect_vattrs(
    nodes: Seq<DescNode>,
    edges: Seq<(usize, usize)>,
    v: usize,
    k: int,
) -> Seq<VertexAttributeDesc>
    decreases k,
{
    if k <= 0 {
        Seq::empty()
    } else {
        let p = spec_collect_vattrs(nodes, edges, v, k - 1);
        if edges[k - 1].1 == v {
            match nodes[edges[k - 1].0 as int].kind {
                NodeBuilder::VertexInputAttribute(b, loc, fmt, off) => p.push(
                    VertexAttributeDesc { binding: b, location: loc, format: fmt, offset: off },
                ),
                _ => p,
            }
        } else {
            p
        }
    }
}

#[verifier::loop_isolation(false)]
fn collect_vattrs(nodes: &Vec<DescNode>, edges: &Vec<(usize, usize)>, v: usize) -> (r: Vec<
    VertexAttributeDesc,
>)
    requires
        graph::edges_wf(nodes@.len() as int, edges@),
    ensures
        r@ == spec_collect_vattrs(nodes@, edges@, v, edges@.len() as int),
{
    let mut r: Vec<VertexAttributeDesc> = Vec::new();
    let mut k: usize = 0;
    while k < edges.len()
        invariant
            k <= edges@.len(),
            r@ == spec_collect_vattrs(nodes@, edges@, v, k as int),
        decreases edges@.len() - k,
    {
        let e = edges[k];
        if e.1 == v {
            match &nodes[e.0].kind {
                NodeBuilder::VertexInputAttribute(b, loc, fmt, off) => {
                    r.push(
                        VertexAttributeDesc {
                            binding: *b,
                            location: *loc,
                            format: *fmt,
                            offset: *off,
                        },
                    );
                },
                _ => {},
            }
        }
        k = k + 1;
    }
    r
}

/// The state the resolution walk threads through the description graph:
/// the registry tables built so far, the wiring lists the emission phase
/// consumes, the per-node resolved handles, and the next fresh handle.
#[verifier::ext_equal]
pub struct ResolveV {
    pub renderpasses: Seq<RenderPassEntryV>,
    pub descriptor_sets: Seq<DescriptorSetEntryV>,
    pub pipeline_layouts: Seq<PipelineLayoutEntryV>,
    pub framebuffers: Seq<FramebufferEntryV>,
    pub pipelines: Seq<PipelineEntryV>,
    /// Render passes in resolution order, by description index.
    pub rp_emit: Seq<usize>,
    /// `(render pass, subpass, subpass index)` triples, grouped by render
    /// pass in resolution order, each group sorted by subpass index.
    pub rp_subs: Seq<(usize, usize, u8)>,
    /// `(pipeline, subpass, pipeline handle)` triples in resolution order.
    pub pipes: Seq<(usize, usize, u64)>,
    /// `(draw, pipeline)` pairs in resolution order.
    pub draws: Seq<(usize, usize)>,
    /// `(framebuffer, render pass, framebuffer handle)` triples.
    pub fbs: Seq<(usize, usize, u64)>,
    /// `(present, render pass)` pairs in resolution order.
    pub presents: Seq<(usize, usize)>,
    pub dset_layout: Seq<Option<u64>>,
    pub pl_handle: Seq<Option<u64>>,
    pub rp_handle: Seq<Option<u64>>,
    pub next_handle: u64,
}

struct ResolveState {
    renderpasses: Vec<RenderPassEntry>,
    descriptor_sets: Vec<DescriptorSetEntry>,
    pipeline_layouts: Vec<PipelineLayoutEntry>,
    framebuffers: Vec<FramebufferEntry>,
    pipelines: Vec<PipelineEntry>,
    rp_emit: Vec<usize>,
    rp_subs: Vec<(usize, usize, u8)>,
    pipes: Vec<(usize, usize, u64)>,
    draws: Vec<(usize, usize)>,
    fbs: Vec<(usize, usize, u64)>,
    presents: Vec<(usize, usize)>,
    dset_layout: Vec<Option<u64>>,
    pl_handle: Vec<Option<u64>>,
    rp_handle: Vec<Option<u64>>,
    next_handle: u64,
}

impl View for ResolveState {
    type V = ResolveV;

    closed spec fn view(&self) -> ResolveV {
        ResolveV {
            renderpasses: Seq::new(self.renderpasses@.len(), |i: int| self.renderpasses@[i]@),
            descriptor_sets: Seq::new(
                self.descriptor_sets@.len(),
                |i: int| self.descriptor_sets@[i]@,
            ),
            pipeline_layouts: Seq::new(
                self.pipeline_layouts@.len(),
                |i: int| self.pipeline_layouts@[i]@,
            ),
            framebuffers: Seq::new(self.framebuffers@.len(), |i: int| self.framebuffers@[i]@),
            pipelines: Seq::new(self.pipelines@.len(), |i: int| self.pipelines@[i]@),
            rp_emit: self.rp_emit@,
            rp_subs: self.rp_subs@,
            pipes: self.pipes@,
            draws: self.draws@,
            fbs: self.fbs@,
            presents: self.presents@,
            dset_layout: self.dset_layout@,
            pl_handle: self.pl_handle@,
            rp_handle: self.rp_handle@,
            next_handle: self.next_handle,
        }
    }
}

/// The per-node handle tables cover every description node.
pub open spec fn spec_tables_wf(st: ResolveV, n: int) -> bool {
    &&& st.dset_layout.len() == n
    &&& st.pl_handle.len() == n
    &&& st.rp_handle.len() == n
}

/// Every description index the wiring lists carry stays below `n`.
pub open spec fn spec_lists_bounded(st: ResolveV, n: int) -> bool {
    &&& forall|t: int| 0 <= t < st.rp_emit.len() ==> (#[trigger] st.rp_emit[t]) < n
    &&& forall|t: int|
        0 <= t < st.rp_subs.len() ==> (#[trigger] st.rp_subs[t]).0 < n && (st.rp_subs[t]).1 < n
    &&& forall|t: int|
        0 <= t < st.pipes.len() ==> (#[trigger] st.pipes[t]).0 < n && (st.pipes[t]).1 < n
    &&& forall|t: int|
        0 <= t < st.draws.len() ==> (#[trigger] st.draws[t]).0 < n && (st.draws[t]).1 < n
    &&& forall|t: int|
        0 <= t < st.fbs.len() ==> (#[trigger] st.fbs[t]).0 < n && (st.fbs[t]).1 < n
    &&& forall|t: int|
        0 <= t < st.presents.len() ==> (#[trigger] st.presents[t]).0 < n && (
        st.presents[t]).1 < n
}

pub open spec fn spec_bump(h: u64) -> u64 {
    spec_sat64(h + 1)
}

pub open spec fn spec_subpass_index(kind: NodeBuilder) -> u8 {
    match kind {
        NodeBuilder::Subpass(ix) => ix,
        _ => 0,
    }
}

/// Resolving a render pass: sort its input attachments by attachment index,
/// gather its subpasses sorted by subpass index, chain their dependencies,
/// and register the pass under a fresh handle.
pub open spec fn spec_step_render_pass(
    nodes: Seq<DescNode>,
    edges: Seq<(usize, usize)>,
    owner: Seq<Option<usize>>,
    v: usize,
    st: ResolveV,
) -> ResolveV {
    let att_sorted = spec_sort_pairs(spec_collect_atts(nodes, edges, v, edges.len() as int));
    let mem_sorted = spec_sort_pairs(
        spec_collect_members(nodes, owner, v, nodes.len() as int),
    );
    let handle = st.next_handle;
    ResolveV {
        renderpasses: st.renderpasses.push(
            RenderPassEntryV {
                name: nodes[v as int].name@,
                handle: handle,
                attachments: spec_atts_of(att_sorted),
                subpass_indices: spec_keys(mem_sorted),
                dependencies: spec_subpass_chain(mem_sorted.len() as int),
            },
        ),
        rp_emit: st.rp_emit.push(v),
        rp_subs: st.rp_subs + Seq::new(
            mem_sorted.len(),
            |i: int| (v, mem_sorted[i].1, mem_sorted[i].0),
        ),
        rp_handle: st.rp_handle.update(v as int, Some(handle)),
        next_handle: spec_bump(st.next_handle),
        ..st
    }
}

/// Resolving a descriptor set: gather its input bindings, size the backing
/// pool to the sum of the binding counts times the multiplicity, and
/// allocate one instance handle per multiplicity slot.
pub open spec fn spec_step_descriptor_set(
    nodes: Seq<DescNode>,
    edges: Seq<(usize, usize)>,
    v: usize,
    m: u32,
    st: ResolveV,
) -> ResolveV {
    let binds = spec_collect_bindings(nodes, edges, v, edges.len() as int);
    let layout_handle = st.next_handle;
    ResolveV {
        descriptor_sets: st.descriptor_sets.push(
            DescriptorSetEntryV {
                name: nodes[v as int].name@,
                layout_handle: layout_handle,
                bindings: binds,
                multiplicity: m,
                pool_capacity: spec_sat64(spec_sum_counts(binds, binds.len() as int) * m),
                set_handles: Seq::new(m as nat, |i: int| spec_sat64(st.next_handle + 1 + i)),
            },
        ),
        dset_layout: st.dset_layout.update(v as int, Some(layout_handle)),
        next_handle: spec_sat64(st.next_handle + 1 + m),
        ..st
    }
}

/// Resolving a pipeline layout: chain the layouts of its input descriptor
/// sets under a fresh handle.
pub open spec fn spec_step_pipeline_layout(
    nodes: Seq<DescNode>,
    edges: Seq<(usize, usize)>,
    v: usize,
    st: ResolveV,
) -> ResolveV {
    let handle = st.next_handle;
    ResolveV {
        pipeline_layouts: st.pipeline_layouts.push(
            PipelineLayoutEntryV {
                name: nodes[v as int].name@,
                handle: handle,
                set_layouts: spec_collect_set_layouts(
                    nodes,
                    edges,
                    st.dset_layout,
                    v,
                    edges.len() as int,
                ),
            },
        ),
        pl_handle: st.pl_handle.update(v as int, Some(handle)),
        next_handle: spec_bump(st.next_handle),
        ..st
    }
}

/// Resolving a graphics pipeline: it needs an upstream subpass whose render
/// pass is resolved and an upstream resolved pipeline layout; its shaders
/// and vertex input state come from its direct inputs.
pub open spec fn spec_step_pipeline(
    nodes: Seq<DescNode>,
    edges: Seq<(usize, usize)>,
    inh: Seq<Heritage>,
    owner: Seq<Option<usize>>,
    v: usize,
    st: ResolveV,
) -> Result<ResolveV, CompileError> {
    match inh[v as int].subpass {
        None => Err(
            CompileError::MissingDependency(nodes[v as int].name, DependencyKind::Subpass),
        ),
        Some(s) => match owner[s as int] {
            None => Err(
                CompileError::MissingDependency(nodes[v as int].name, DependencyKind::RenderPass),
            ),
            Some(rp) => match st.rp_handle[rp as int] {
                None => Err(
                    CompileError::MissingDependency(
                        nodes[v as int].name,
                        DependencyKind::RenderPass,
                    ),
                ),
                Some(rph) => match (match inh[v as int].layout {
                    Some(l) => st.pl_handle[l as int],
                    None => None,
                }) {
                    None => Err(
                        CompileError::MissingDependency(
                            nodes[v as int].name,
                            DependencyKind::PipelineLayout,
                        ),
                    ),
                    Some(lh) => {
                        let handle = st.next_handle;
                        Ok(
                            ResolveV {
                                pipelines: st.pipelines.push(
                                    PipelineEntryV {
                                        name: nodes[v as int].name@,
                                        handle: handle,
                                        layout: lh,
                                        renderpass: rph,
                                        subpass_index: spec_subpass_index(nodes[s as int].kind),
                                        vertex_shaders: spec_collect_shaders(
                                            nodes,
                                            edges,
                                            v,
                                            true,
                                            edges.len() as int,
                                        ),
                                        fragment_shaders: spec_collect_shaders(
                                            nodes,
                                            edges,
                                            v,
                                            false,
                                            edges.len() as int,
                                        ),
                                        vertex_bindings: spec_collect_vbindings(
                                            nodes,
                                            edges,
                                            v,
                                            edges.len() as int,
                                        ),
                                        vertex_attributes: spec_collect_vattrs(
                                            nodes,
                                            edges,
                                            v,
                                            edges.len() as int,
                                        ),
                                    },
                                ),
                                pipes: st.pipes.push((v, s, handle)),
                                next_handle: spec_bump(st.next_handle),
                                ..st
                            },
                        )
                    },
                },
            },
        },
    }
}

/// Resolving a draw node: it needs an upstream pipeline to follow.
pub open spec fn spec_step_draw(nodes: Seq<DescNode>, inh: Seq<Heritage>, v: usize, st: ResolveV) -> Result<
    ResolveV,
    CompileError,
> {
    match inh[v as int].pipeline {
        None => Err(
            CompileError::MissingDependency(
                nodes[v as int].name,
                DependencyKind::GraphicsPipeline,
            ),
        ),
        Some(p) => Ok(ResolveV { draws: st.draws.push((v, p)), ..st }),
    }
}

/// Resolving a present node: it needs an upstream render pass, and the
/// graph must carry an image acquire for there to be an image to present.
pub open spec fn spec_step_present(
    nodes: Seq<DescNode>,
    inh: Seq<Heritage>,
    any_acq: bool,
    v: usize,
    st: ResolveV,
) -> Result<ResolveV, CompileError> {
    match inh[v as int].rp {
        None => Err(
            CompileError::MissingDependency(nodes[v as int].name, DependencyKind::RenderPass),
        ),
        Some(rp) => if !any_acq {
            Err(
                CompileError::MissingDependency(
                    nodes[v as int].name,
                    DependencyKind::AcquirePresentImage,
                ),
            )
        } else {
            Ok(ResolveV { presents: st.presents.push((v, rp)), ..st })
        },
    }
}

/// Resolving a framebuffer: it needs a resolved upstream render pass, and
/// is created once per swapchain image.
pub open spec fn spec_step_framebuffer(
    nodes: Seq<DescNode>,
    inh: Seq<Heritage>,
    ctx: CompileContext,
    v: usize,
    st: ResolveV,
) -> Result<ResolveV, CompileError> {
    match inh[v as int].rp {
        None => Err(
            CompileError::MissingDependency(nodes[v as int].name, DependencyKind::RenderPass),
        ),
        Some(rp) => match st.rp_handle[rp as int] {
            None => Err(
                CompileError::MissingDependency(nodes[v as int].name, DependencyKind::RenderPass),
            ),
            Some(rph) => {
                let handle = st.next_handle;
                Ok(
                    ResolveV {
                        framebuffers: st.framebuffers.push(
                            FramebufferEntryV {
                                name: nodes[v as int].name@,
                                handle: handle,
                                renderpass: rph,
                                image_count: ctx.swapchain_image_count,
                            },
                        ),
                        fbs: st.fbs.push((v, rp, handle)),
                        next_handle: spec_bump(st.next_handle),
                        ..st
                    },
                )
            },
        },
    }
}

/// One resolution step, dispatched on the node's kind. Nodes that only
/// describe inputs for their consumers resolve to the unchanged state.
pub open spec fn spec_resolve_step(
    nodes: Seq<DescNode>,
    edges: Seq<(usize, usize)>,
    inh: Seq<Heritage>,
    owner: Seq<Option<usize>>,
    any_acq: bool,
    ctx: CompileContext,
    v: usize,
    st: ResolveV,
) -> Result<ResolveV, CompileError> {
    match nodes[v as int].kind {
        NodeBuilder::RenderPass => Ok(spec_step_render_pass(nodes, edges, owner, v, st)),
        NodeBuilder::DescriptorSet(m) => Ok(spec_step_descriptor_set(nodes, edges, v, m, st)),
        NodeBuilder::PipelineLayout => Ok(spec_step_pipeline_layout(nodes, edges, v, st)),
        NodeBuilder::GraphicsPipeline => spec_step_pipeline(nodes, edges, inh, owner, v, st),
        NodeBuilder::DrawCommands(_) => spec_step_draw(nodes, inh, v, st),
        NodeBuilder::PresentImage => spec_step_present(nodes, inh, any_acq, v, st),
        NodeBuilder::Framebuffer => spec_step_framebuffer(nodes, inh, ctx, v, st),
        _ => Ok(st),
    }
}

/// Folds the resolution step over the topological order from position `t`.
pub open spec fn spec_resolve_from(
    nodes: Seq<DescNode>,
    edges: Seq<(usize, usize)>,
    order: Seq<usize>,
    inh: Seq<Heritage>,
    owner: Seq<Option<usize>>,
    any_acq: bool,
    ctx: CompileContext,
    t: int,
    st: ResolveV,
) -> Result<ResolveV, CompileError>
    decreases order.len() - t,
{
    if t < 0 || t >= order.len() {
        Ok(st)
    } else {
        match spec_resolve_step(nodes, edges, inh, owner, any_acq, ctx, order[t], st) {
            Ok(st2) => spec_resolve_from(
                nodes,
                edges,
                order,
                inh,
                owner,
                any_acq,
                ctx,
                t + 1,
                st2,
            ),
            Err(e) => Err(e),
        }
    }
}

pub open spec fn spec_init_resolve(n: int) -> ResolveV {
    ResolveV {
        renderpasses: Seq::empty(),
        descriptor_sets: Seq::empty(),
        pipeline_layouts: Seq::empty(),
        framebuffers: Seq::empty(),
        pipelines: Seq::empty(),
        rp_emit: Seq::empty(),
        rp_subs: Seq::empty(),
        pipes: Seq::empty(),
        draws: Seq::empty(),
        fbs: Seq::empty(),
        presents: Seq::empty(),
        dset_layout: Seq::new(n as nat, |i: int| None),
        pl_handle: Seq::new(n as nat, |i: int| None),
        rp_handle: Seq::new(n as nat, |i: int| None),
        next_handle: 1,
    }
}

/// The full resolution walk over the topological order.
pub open spec fn spec_resolve(
    nodes: Seq<DescNode>,
    edges: Seq<(usize, usize)>,
    order: Seq<usize>,
    inh: Seq<Heritage>,
    owner: Seq<Option<usize>>,
    any_acq: bool,
    ctx: CompileContext,
) -> Result<ResolveV, CompileError> {
    spec_resolve_from(
        nodes,
        edges,
        order,
        inh,
        owner,
        any_acq,
        ctx,
        0,
        spec_init_resolve(nodes.len() as int),
    )
}

#[verifier::loop_isolation(false)]
fn step_render_pass(
    nodes: &Vec<DescNode>,
    edges: &Vec<(usize, usize)>,
    owner: &Vec<Option<usize>>,
    v: usize,
    st: &mut ResolveState,
) -> (r: ())
    requires
        graph::edges_wf(nodes@.len() as int, edges@),
        owner@.len() == nodes@.len(),
        v < nodes@.len(),
        spec_tables_wf(old(st)@, nodes@.len() as int),
    ensures
        final(st)@ == spec_step_render_pass(nodes@, edges@, owner@, v, old(st)@),
        spec_tables_wf(final(st)@, nodes@.len() as int),
        spec_lists_bounded(old(st)@, nodes@.len() as int) ==> spec_lists_bounded(
            final(st)@,
            nodes@.len() as int,
        ),
{
    let att_pairs = collect_atts(nodes, edges, v);
    let att_sorted = sort_pairs(&att_pairs);
    let attachments = atts_of(&att_sorted);
    let mem_pairs = collect_members(nodes, owner, v);
    let mem_sorted = sort_pairs(&mem_pairs);
    let subpass_indices = keys_of(&mem_sorted);
    let dependencies = subpass_chain(mem_sorted.len());
    let handle = st.next_handle;
    let entry = RenderPassEntry {
        name: nodes[v].name.clone(),
        handle,
        attachments,
        subpass_indices,
        dependencies,
    };
    let mut triples: Vec<(usize, usize, u8)> = Vec::new();
    let mut i: usize = 0;
    while i < mem_sorted.len()
        invariant
            i <= mem_sorted@.len(),
            triples@.len() == i as int,
            forall|t: int| 0 <= t < i ==> (#[trigger] triples@[t]) == (
            v,
            mem_sorted@[t].1,
            mem_sorted@[t].0,
            ),
            forall|t: int| 0 <= t < i ==> (#[trigger] triples@[t]).1 < nodes@.len(),
        decreases mem_sorted@.len() - i,
    {
        let p = mem_sorted[i];
        proof {
            assert(mem_sorted@.contains(p)) by {
                assert(mem_sorted@[i as int] == p);
            }
            lemma_sort_pairs_elems(mem_pairs@, p);
            let u = choose|u: int| 0 <= u < mem_pairs@.len() && mem_pairs@[u] == p;
            assert(p.1 < nodes@.len());
        }
        triples.push((v, p.1, p.0));
        i = i + 1;
    }
    proof {
        assert(triples@ =~= Seq::new(
            mem_sorted@.len(),
            |t: int| (v, mem_sorted@[t].1, mem_sorted@[t].0),
        ));
    }
    st.renderpasses.push(entry);
    st.rp_emit.push(v);
    st.rp_subs.append(&mut triples);
    st.rp_handle[v] = Some(handle);
    st.next_handle = sat_add64(handle, 1);
    proof {
        assert(st@ =~~= spec_step_render_pass(nodes@, edges@, owner@, v, old(st)@));
    }
}

#[verifier::loop_isolation(false)]
fn step_descriptor_set(
    nodes: &Vec<DescNode>,
    edges: &Vec<(usize, usize)>,
    v: usize,
    m: u32,
    st: &mut ResolveState,
) -> (r: ())
    requires
        graph::edges_wf(nodes@.len() as int, edges@),
        v < nodes@.len(),
        spec_tables_wf(old(st)@, nodes@.len() as int),
    ensures
        final(st)@ == spec_step_descriptor_set(nodes@, edges@, v, m, old(st)@),
        spec_tables_wf(final(st)@, nodes@.len() as int),
        spec_lists_bounded(old(st)@, nodes@.len() as int) ==> spec_lists_bounded(
            final(st)@,
            nodes@.len() as int,
        ),
{
    let binds = collect_bindings(nodes, edges, v);
    let layout_handle = st.next_handle;
    let sum = sum_counts(&binds);
    let pool = sat_mul64(sum, m as u64);
    let mut sets: Vec<u64> = Vec::new();
    let mut h: u64 = layout_handle;
    let mut j: u32 = 0;
    while j < m
        invariant
            j <= m,
            h == spec_sat64(layout_handle + j),
            sets@.len() == j as int,
            forall|t: int| 0 <= t < j ==> (#[trigger] sets@[t]) == spec_sat64(
                layout_handle + 1 + t,
            ),
        decreases m - j,
    {
        h = sat_add64(h, 1);
        sets.push(h);
        j = j + 1;
    }
    proof {
        assert(sets@ =~= Seq::new(m as nat, |t: int| spec_sat64(layout_handle + 1 + t)));
    }
    let next = sat_add64(h, 1);
    let entry = DescriptorSetEntry {
        name: nodes[v].name.clone(),
        layout_handle,
        bindings: binds,
        multiplicity: m,
        pool_capacity: pool,
        set_handles: sets,
    };
    st.descriptor_sets.push(entry);
    st.dset_layout[v] = Some(layout_handle);
    st.next_handle = next;
    proof {
        assert(st@ =~~= spec_step_descriptor_set(nodes@, edges@, v, m, old(st)@));
    }
}

#[verifier::loop_isolation(false)]
fn step_pipeline_layout(
    nodes: &Vec<DescNode>,
    edges: &Vec<(usize, usize)>,
    v: usize,
    st: &mut ResolveState,
) -> (r: ())
    requires
        graph::edges_wf(nodes@.len() as int, edges@),
        v < nodes@.len(),
        spec_tables_wf(old(st)@, nodes@.len() as int),
    ensures
        final(st)@ == spec_step_pipeline_layout(nodes@, edges@, v, old(st)@),
        spec_tables_wf(final(st)@, nodes@.len() as int),
        spec_lists_bounded(old(st)@, nodes@.len() as int) ==> spec_lists_bounded(
            final(st)@,
            nodes@.len() as int,
        ),
{
    let set_layouts = collect_set_layouts(nodes, edges, &st.dset_layout, v);
    let handle = st.next_handle;
    let entry = PipelineLayoutEntry { name: nodes[v].name.clone(), handle, set_layouts };
    st.pipeline_layouts.push(entry);
    st.pl_handle[v] = Some(handle);
    st.next_handle = sat_add64(handle, 1);
    proof {
        assert(st@ =~~= spec_step_pipeline_layout(nodes@, edges@, v, old(st)@));
    }
}

#[verifier::loop_isolation(false)]
fn step_pipeline(
    nodes: &Vec<DescNode>,
    edges: &Vec<(usize, usize)>,
    inh: &Vec<Heritage>,
    owner: &Vec<Option<usize>>,
    v: usize,
    st: &mut ResolveState,
) -> (r: Result<(), CompileError>)
    requires
        graph::edges_wf(nodes@.len() as int, edges@),
        inh@.len() == nodes@.len(),
        owner@.len() == nodes@.len(),
        forall|u: int|
            0 <= u < nodes@.len() ==> spec_heritage_bounded(
                #[trigger] inh@[u],
                nodes@.len() as int,
            ),
        forall|u: int|
            0 <= u < owner@.len() ==> match #[trigger] owner@[u] {
                Some(x) => x < nodes@.len(),
                None => true,
            },
        v < nodes@.len(),
        spec_tables_wf(old(st)@, nodes@.len() as int),
    ensures
        match r {
            Ok(()) => spec_step_pipeline(nodes@, edges@, inh@, owner@, v, old(st)@) == Ok::<
                ResolveV,
                CompileError,
            >(final(st)@) && spec_tables_wf(final(st)@, nodes@.len() as int) && (
            spec_lists_bounded(old(st)@, nodes@.len() as int) ==> spec_lists_bounded(
                final(st)@,
                nodes@.len() as int,
            )),
            Err(e) => spec_step_pipeline(nodes@, edges@, inh@, owner@, v, old(st)@) == Err::<
                ResolveV,
                CompileError,
            >(e),
        },
{
    let s: usize = match inh[v].subpass {
        Some(s) => s,
        None => {
            return Err(
                CompileError::MissingDependency(nodes[v].name.clone(), DependencyKind::Subpass),
            );
        },
    };
    let rp: usize = match owner[s] {
        Some(rp) => rp,
        None => {
            return Err(
                CompileError::MissingDependency(nodes[v].name.clone(), DependencyKind::RenderPass),
            );
        },
    };
    let rph: u64 = match st.rp_handle[rp] {
        Some(rph) => rph,
        None => {
            return Err(
                CompileError::MissingDependency(nodes[v].name.clone(), DependencyKind::RenderPass),
            );
        },
    };
    let layout: u64 = match (match inh[v].layout {
        Some(l) => st.pl_handle[l],
        None => None,
    }) {
        Some(lh) => lh,
        None => {
            return Err(
                CompileError::MissingDependency(
                    nodes[v].name.clone(),
                    DependencyKind::PipelineLayout,
                ),
            );
        },
    };
    let subpass_index: u8 = match &nodes[s].kind {
        NodeBuilder::Subpass(ix) => *ix,
        _ => 0,
    };
    let vertex_shaders = collect_shaders(nodes, edges, v, true);
    let fragment_shaders = collect_shaders(nodes, edges, v, false);
    let vertex_bindings = collect_vbindings(nodes, edges, v);
    let vertex_attributes = collect_vattrs(nodes, edges, v);
    let handle = st.next_handle;
    let entry = PipelineEntry {
        name: nodes[v].name.clone(),
        handle,
        layout,
        renderpass: rph,
        subpass_index,
        vertex_shaders,
        fragment_shaders,
        vertex_bindings,
        vertex_attributes,
    };
    st.pipelines.push(entry);
    st.pipes.push((v, s, handle));
    st.next_handle = sat_add64(handle, 1);
    proof {
        assert(spec_step_pipeline(nodes@, edges@, inh@, owner@, v, old(st)@) == Ok::<
            ResolveV,
            CompileError,
        >(st@)) by {
            assert(st@ =~~= spec_step_pipeline(
                nodes@,
                edges@,
                inh@,
                owner@,
                v,
                old(st)@,
            ).unwrap());
        }
    }
    Ok(())
}

#[verifier::loop_isolation(false)]
fn resolve_step(
    nodes: &Vec<DescNode>,
    edges: &Vec<(usize, usize)>,
    inh: &Vec<Heritage>,
    owner: &Vec<Option<usize>>,
    any_acq: bool,
    ctx: &CompileContext,
    v: usize,
    st: &mut ResolveState,
) -> (r: Result<(), CompileError>)
    requires
        graph::edges_wf(nodes@.len() as int, edges@),
        inh@.len() == nodes@.len(),
        owner@.len() == nodes@.len(),
        forall|u: int|
            0 <= u < nodes@.len() ==> spec_heritage_bounded(
                #[trigger] inh@[u],
                nodes@.len() as int,
            ),
        forall|u: int|
            0 <= u < owner@.len() ==> match #[trigger] owner@[u] {
                Some(x) => x < nodes@.len(),
                None => true,
            },
        v < nodes@.len(),
        spec_tables_wf(old(st)@, nodes@.len() as int),
    ensures
        match r {
            Ok(()) => spec_resolve_step(nodes@, edges@, inh@, owner@, any_acq, *ctx, v, old(st)@)
                == Ok::<ResolveV, CompileError>(final(st)@) && spec_tables_wf(
                final(st)@,
                nodes@.len() as int,
            ) && (spec_lists_bounded(old(st)@, nodes@.len() as int) ==> spec_lists_bounded(
                final(st)@,
                nodes@.len() as int,
            )),
            Err(e) => spec_resolve_step(nodes@, edges@, inh@, owner@, any_acq, *ctx, v, old(st)@)
                == Err::<ResolveV, CompileError>(e),
        },
{
    let kind_tag: usize = match &nodes[v].kind {
        NodeBuilder::RenderPass => 0,
        NodeBuilder::DescriptorSet(_) => 1,
        NodeBuilder::PipelineLayout => 2,
        NodeBuilder::GraphicsPipeline => 3,
        NodeBuilder::DrawCommands(_) => 4,
        NodeBuilder::PresentImage => 5,
        NodeBuilder::Framebuffer => 6,
        _ => 7,
    };
    if kind_tag == 0 {
        step_render_pass(nodes, edges, owner, v, st);
        Ok(())
    } else if kind_tag == 1 {
        let m: u32 = match &nodes[v].kind {
            NodeBuilder::DescriptorSet(m) => *m,
            _ => 0,
        };
        step_descriptor_set(nodes, edges, v, m, st);
        Ok(())
    } else if kind_tag == 2 {
        step_pipeline_layout(nodes, edges, v, st);
        Ok(())
    } else if kind_tag == 3 {
        step_pipeline(nodes, edges, inh, owner, v, st)
    } else if kind_tag == 4 {
        match inh[v].pipeline {
            Some(p) => {
                st.draws.push((v, p));
                proof {
                    assert(st@ =~~= spec_step_draw(nodes@, inh@, v, old(st)@).unwrap());
                }
                Ok(())
            },
            None => Err(
                CompileError::MissingDependency(
                    nodes[v].name.clone(),
                    DependencyKind::GraphicsPipeline,
                ),
            ),
        }
    } else if kind_tag == 5 {
        match inh[v].rp {
            Some(rp) => if !any_acq {
                Err(
                    CompileError::MissingDependency(
                        nodes[v].name.clone(),
                        DependencyKind::AcquirePresentImage,
                    ),
                )
            } else {
                st.presents.push((v, rp));
                proof {
                    assert(st@ =~~= spec_step_present(
                        nodes@,
                        inh@,
                        any_acq,
                        v,
                        old(st)@,
                    ).unwrap());
                }
                Ok(())
            },
            None => Err(
                CompileError::MissingDependency(nodes[v].name.clone(), DependencyKind::RenderPass),
            ),
        }
    } else if kind_tag == 6 {
        match inh[v].rp {
            Some(rp) => {
                match st.rp_handle[rp] {
                    Some(rph) => {
                        let handle = st.next_handle;
                        let entry = FramebufferEntry {
                            name: nodes[v].name.clone(),
                            handle,
                            renderpass: rph,
                            image_count: ctx.swapchain_image_count,
                        };
                        st.framebuffers.push(entry);
                        st.fbs.push((v, rp, handle));
                        st.next_handle = sat_add64(handle, 1);
                        proof {
                            assert(st@ =~~= spec_step_framebuffer(
                                nodes@,
                                inh@,
                                *ctx,
                                v,
                                old(st)@,
                            ).unwrap());
                        }
                        Ok(())
                    },
                    None => Err(
                        CompileError::MissingDependency(
                            nodes[v].name.clone(),
                            DependencyKind::RenderPass,
                        ),
                    ),
                }
            },
            None => Err(
                CompileError::MissingDependency(nodes[v].name.clone(), DependencyKind::RenderPass),
            ),
        }
    } else {
        Ok(())
    }
}

#[verifier::loop_isolation(false)]
fn resolve_all(
    nodes: &Vec<DescNode>,
    edges: &Vec<(usize, usize)>,
    order: &Vec<usize>,
    inh: &Vec<Heritage>,
    owner: &Vec<Option<usize>>,
    any_acq: bool,
    ctx: &CompileContext,
) -> (r: Result<ResolveState, CompileError>)
    requires
        graph::edges_wf(nodes@.len() as int, edges@),
        forall|t: int| 0 <= t < order@.len() ==> (#[trigger] order@[t]) < nodes@.len(),
        inh@.len() == nodes@.len(),
        owner@.len() == nodes@.len(),
        forall|u: int|
            0 <= u < nodes@.len() ==> spec_heritage_bounded(
                #[trigger] inh@[u],
                nodes@.len() as int,
            ),
        forall|u: int|
            0 <= u < owner@.len() ==> match #[trigger] owner@[u] {
                Some(x) => x < nodes@.len(),
                None => true,
            },
    ensures
        match r {
            Ok(st) => spec_resolve(nodes@, edges@, order@, inh@, owner@, any_acq, *ctx) == Ok::<
                ResolveV,
                CompileError,
            >(st@) && spec_tables_wf(st@, nodes@.len() as int) && spec_lists_bounded(
                st@,
                nodes@.len() as int,
            ),
            Err(e) => spec_resolve(nodes@, edges@, order@, inh@, owner@, any_acq, *ctx) == Err::<
                ResolveV,
                CompileError,
            >(e),
        },
{
    let n = nodes.len();
    let mut dset_layout: Vec<Option<u64>> = Vec::new();
    let mut pl_handle: Vec<Option<u64>> = Vec::new();
    let mut rp_handle: Vec<Option<u64>> = Vec::new();
    let mut i: usize = 0;
    while i < n
        invariant
            i <= n,
            dset_layout@.len() == i as int,
            pl_handle@.len() == i as int,
            rp_handle@.len() == i as int,
            forall|t: int| 0 <= t < i ==> (#[trigger] dset_layout@[t]) is None,
            forall|t: int| 0 <= t < i ==> (#[trigger] pl_handle@[t]) is None,
            forall|t: int| 0 <= t < i ==> (#[trigger] rp_handle@[t]) is None,
        decreases n - i,
    {
        dset_layout.push(None);
        pl_handle.push(None);
        rp_handle.push(None);
        i = i + 1;
    }
    let mut st = ResolveState {
        renderpasses: Vec::new(),
        descriptor_sets: Vec::new(),
        pipeline_layouts: Vec::new(),
        framebuffers: Vec::new(),
        pipelines: Vec::new(),
        rp_emit: Vec::new(),
        rp_subs: Vec::new(),
        pipes: Vec::new(),
        draws: Vec::new(),
        fbs: Vec::new(),
        presents: Vec::new(),
        dset_layout,
        pl_handle,
        rp_handle,
        next_handle: 1,
    };
    proof {
        assert(st@ =~~= spec_init_resolve(nodes@.len() as int));
    }
    let mut t: usize = 0;
    while t < order.len()
        invariant
            t <= order@.len(),
            spec_tables_wf(st@, nodes@.len() as int),
            spec_lists_bounded(st@, nodes@.len() as int),
            spec_resolve_from(nodes@, edges@, order@, inh@, owner@, any_acq, *ctx, t as int, st@)
                == spec_resolve(nodes@, edges@, order@, inh@, owner@, any_acq, *ctx),
        decreases order@.len() - t,
    {
        let v = order[t];
        match resolve_step(nodes, edges, inh, owner, any_acq, ctx, v, &mut st) {
            Ok(()) => {},
            Err(e) => {
                return Err(e);
            },
        }
        t = t + 1;
    }
    Ok(st)
}

/// The runtime graph under construction: nodes in execution order, edges
/// that always point forward, and the end node of each emitted render pass.
#[verifier::ext_equal]
pub struct EmitV {
    pub nodes: Seq<RuntimeNodeV>,
    pub edges: Seq<(usize, usize)>,
    pub rp_end: Seq<(usize, usize)>,
}

/// Edges point forward in the node order and stay in range, and so do the
/// recorded render pass end nodes.
pub open spec fn spec_emit_wf(st: EmitV) -> bool {
    &&& forall|k: int|
        0 <= k < st.edges.len() ==> (#[trigger] st.edges[k]).0 < (st.edges[k]).1 && (
        st.edges[k]).1 < st.nodes.len()
    &&& forall|k: int| 0 <= k < st.rp_end.len() ==> (#[trigger] st.rp_end[k]).1 < st.nodes.len()
}

pub open spec fn spec_callback_of(kind: NodeBuilder) -> u32 {
    match kind {
        NodeBuilder::DrawCommands(cb) => cb,
        _ => 0,
    }
}

pub open spec fn spec_scissor(ctx: CompileContext) -> Rect2D {
    Rect2D { x: 0, y: 0, width: ctx.surface_width, height: ctx.surface_height }
}

pub open spec fn spec_viewport(ctx: CompileContext) -> Viewport {
    Viewport { x: 0, y: 0, width: ctx.surface_width, height: ctx.surface_height }
}

/// Emits the framebuffer nodes feeding render pass `v`, in resolution
/// order.
pub open spec fn spec_emit_fbs(
    nodes_desc: Seq<DescNode>,
    fbs: Seq<(usize, usize, u64)>,
    v: usize,
    k: int,
    st: EmitV,
) -> EmitV
    decreases k,
{
    if k <= 0 {
        st
    } else {
        let st1 = spec_emit_fbs(nodes_desc, fbs, v, k - 1, st);
        if fbs[k - 1].1 == v {
            EmitV {
                nodes: st1.nodes.push(
                    RuntimeNodeV {
                        name: nodes_desc[fbs[k - 1].0 as int].name@,
                        kind: NodeRuntime::Framebuffer(fbs[k - 1].2),
                    },
                ),
                ..st1
            }
        } else {
            st1
        }
    }
}

/// Emits the draw nodes of pipeline `p`, each wired after its bind node.
pub open spec fn spec_emit_draws(
    nodes_desc: Seq<DescNode>,
    draws: Seq<(usize, usize)>,
    p: usize,
    bind_ix: usize,
    k: int,
    st: EmitV,
) -> EmitV
    decreases k,
{
    if k <= 0 {
        st
    } else {
        let st1 = spec_emit_draws(nodes_desc, draws, p, bind_ix, k - 1, st);
        if draws[k - 1].1 == p {
            let d = draws[k - 1].0;
            EmitV {
                nodes: st1.nodes.push(
                    RuntimeNodeV {
                        name: nodes_desc[d as int].name@,
                        kind: NodeRuntime::DrawCommands(
                            spec_callback_of(nodes_desc[d as int].kind),
                        ),
                    },
                ),
                edges: st1.edges.push((bind_ix, st1.nodes.len() as usize)),
                ..st1
            }
        } else {
            st1
        }
    }
}

/// Emits the pipeline bind nodes of subpass `s`, each wired after the
/// subpass begin node and followed by its draw nodes.
pub open spec fn spec_emit_pipes(
    nodes_desc: Seq<DescNode>,
    pipes: Seq<(usize, usize, u64)>,
    draws: Seq<(usize, usize)>,
    ctx: CompileContext,
    s: usize,
    begin_sp: usize,
    k: int,
    st: EmitV,
) -> EmitV
    decreases k,
{
    if k <= 0 {
        st
    } else {
        let st1 = spec_emit_pipes(nodes_desc, pipes, draws, ctx, s, begin_sp, k - 1, st);
        if pipes[k - 1].1 == s {
            let p = pipes[k - 1].0;
            let bind_ix = st1.nodes.len() as usize;
            let st2 = EmitV {
                nodes: st1.nodes.push(
                    RuntimeNodeV {
                        name: nodes_desc[p as int].name@,
                        kind: NodeRuntime::BindPipeline(
                            pipes[k - 1].2,
                            Some(spec_scissor(ctx)),
                            Some(spec_viewport(ctx)),
                        ),
                    },
                ),
                edges: st1.edges.push((begin_sp, bind_ix)),
                ..st1
            };
            spec_emit_draws(nodes_desc, draws, p, bind_ix, draws.len() as int, st2)
        } else {
            st1
        }
    }
}

/// Emits the subpasses of render pass `v` in their sorted order: each
/// begins after the render pass begin node and after the previous
/// subpass's end, holds its pipeline binds and draws, and everything in
/// the subpass feeds its end node.
pub open spec fn spec_emit_subs(
    nodes_desc: Seq<DescNode>,
    rp_subs: Seq<(usize, usize, u8)>,
    pipes: Seq<(usize, usize, u64)>,
    draws: Seq<(usize, usize)>,
    ctx: CompileContext,
    v: usize,
    begin_rp: usize,
    k: int,
    st: EmitV,
    prev_end: Option<usize>,
    ends: Seq<usize>,
) -> (EmitV, Option<usize>, Seq<usize>)
    decreases k,
{
    if k <= 0 {
        (st, prev_end, ends)
    } else {
        let r1 = spec_emit_subs(
            nodes_desc,
            rp_subs,
            pipes,
            draws,
            ctx,
            v,
            begin_rp,
            k - 1,
            st,
            prev_end,
            ends,
        );
        let st1 = r1.0;
        let pe1 = r1.1;
        let ends1 = r1.2;
        if rp_subs[k - 1].0 == v {
            let s = rp_subs[k - 1].1;
            let idx = rp_subs[k - 1].2;
            let begin_sp = st1.nodes.len() as usize;
            let st2 = EmitV {
                nodes: st1.nodes.push(
                    RuntimeNodeV {
                        name: nodes_desc[s as int].name@,
                        kind: NodeRuntime::BeginSubPass(idx),
                    },
                ),
                edges: (match pe1 {
                    Some(pe) => st1.edges.push((begin_rp, begin_sp)).push((pe, begin_sp)),
                    None => st1.edges.push((begin_rp, begin_sp)),
                }),
                ..st1
            };
            let st3 = spec_emit_pipes(
                nodes_desc,
                pipes,
                draws,
                ctx,
                s,
                begin_sp,
                pipes.len() as int,
                st2,
            );
            let end_sp = st3.nodes.len() as usize;
            let st4 = EmitV {
                nodes: st3.nodes.push(
                    RuntimeNodeV {
                        name: nodes_desc[s as int].name@,
                        kind: NodeRuntime::EndSubPass(idx),
                    },
                ),
                edges: st3.edges + Seq::new(
                    (end_sp - begin_sp) as nat,
                    |t: int| ((begin_sp + t) as usize, end_sp),
                ),
                ..st3
            };
            (st4, Some(end_sp), ends1.push(end_sp))
        } else {
            (st1, pe1, ends1)
        }
    }
}

/// Emits a render pass's framebuffer feeds and its begin node, the begin
/// wired after every feed and after the shared acquire when the pass sees
/// one.
pub open spec fn spec_emit_rp_begin(
    nodes_desc: Seq<DescNode>,
    rst: ResolveV,
    inh: Seq<Heritage>,
    any_acq: bool,
    r: int,
    st: EmitV,
) -> EmitV {
    let v = rst.rp_emit[r];
    let handle = rst.renderpasses[r].handle;
    let base = st.nodes.len() as usize;
    let st_a = spec_emit_fbs(nodes_desc, rst.fbs, v, rst.fbs.len() as int, st);
    let begin_rp = st_a.nodes.len() as usize;
    EmitV {
        nodes: st_a.nodes.push(
            RuntimeNodeV {
                name: nodes_desc[v as int].name@,
                kind: NodeRuntime::BeginRenderPass(handle),
            },
        ),
        edges: st_a.edges + Seq::new(
            (begin_rp - base) as nat,
            |t: int| ((base + t) as usize, begin_rp),
        ) + (if any_acq && inh[v as int].acquire {
            seq![(0usize, begin_rp)]
        } else {
            Seq::empty()
        }),
        ..st_a
    }
}

/// Emits one render pass block: its framebuffer feeds, its begin node
/// (wired after the shared acquire when the pass sees one), its subpasses
/// in order, and its end node fed by the begin node and every subpass end.
pub open spec fn spec_emit_rp(
    nodes_desc: Seq<DescNode>,
    rst: ResolveV,
    inh: Seq<Heritage>,
    any_acq: bool,
    ctx: CompileContext,
    r: int,
    st: EmitV,
) -> EmitV {
    let v = rst.rp_emit[r];
    let handle = rst.renderpasses[r].handle;
    let st_a = spec_emit_fbs(nodes_desc, rst.fbs, v, rst.fbs.len() as int, st);
    let begin_rp = st_a.nodes.len() as usize;
    let st_b = spec_emit_rp_begin(nodes_desc, rst, inh, any_acq, r, st);
    let r_c = spec_emit_subs(
        nodes_desc,
        rst.rp_subs,
        rst.pipes,
        rst.draws,
        ctx,
        v,
        begin_rp,
        rst.rp_subs.len() as int,
        st_b,
        None,
        Seq::empty(),
    );
    let st_c = r_c.0;
    let ends = r_c.2;
    let end_rp = st_c.nodes.len() as usize;
    EmitV {
        nodes: st_c.nodes.push(
            RuntimeNodeV {
                name: nodes_desc[v as int].name@,
                kind: NodeRuntime::EndRenderPass(handle),
            },
        ),
        edges: st_c.edges.push((begin_rp, end_rp)) + Seq::new(
            ends.len(),
            |t: int| (ends[t], end_rp),
        ),
        rp_end: st_c.rp_end.push((v, end_rp)),
    }
}

pub open spec fn spec_emit_rps(
    nodes_desc: Seq<DescNode>,
    rst: ResolveV,
    inh: Seq<Heritage>,
    any_acq: bool,
    ctx: CompileContext,
    r: int,
    st: EmitV,
) -> EmitV
    decreases r,
{
    if r <= 0 {
        st
    } else {
        spec_emit_rp(
            nodes_desc,
            rst,
            inh,
            any_acq,
            ctx,
            r - 1,
            spec_emit_rps(nodes_desc, rst, inh, any_acq, ctx, r - 1, st),
        )
    }
}

/// The end node of the given render pass, among the emitted ones.
pub open spec fn spec_find_rp_end(rp_end: Seq<(usize, usize)>, rp: usize, k: int) -> Option<usize>
    decreases k,
{
    if k <= 0 {
        None
    } else {
        match spec_find_rp_end(rp_end, rp, k - 1) {
            Some(e) => Some(e),
            None => if rp_end[k - 1].0 == rp {
                Some(rp_end[k - 1].1)
            } else {
                None
            },
        }
    }
}

proof fn lemma_find_rp_end_bounded(rp_end: Seq<(usize, usize)>, rp: usize, k: int, bound: int)
    requires
        k <= rp_end.len(),
        forall|t: int| 0 <= t < rp_end.len() ==> (#[trigger] rp_end[t]).1 < bound,
    ensures
        match spec_find_rp_end(rp_end, rp, k) {
            Some(e) => e < bound,
            None => true,
        },
    decreases k,
{
    if k > 0 {
        lemma_find_rp_end_bounded(rp_end, rp, k - 1, bound);
    }
}

/// Emits the present nodes: each waits on its render pass's end node and
/// on the shared acquire node.
pub open spec fn spec_emit_presents(
    nodes_desc: Seq<DescNode>,
    presents: Seq<(usize, usize)>,
    any_acq: bool,
    k: int,
    st: EmitV,
) -> EmitV
    decreases k,
{
    if k <= 0 {
        st
    } else {
        let st1 = spec_emit_presents(nodes_desc, presents, any_acq, k - 1, st);
        let d = presents[k - 1].0;
        let rp = presents[k - 1].1;
        let present_ix = st1.nodes.len() as usize;
        let e1 = match spec_find_rp_end(st1.rp_end, rp, st1.rp_end.len() as int) {
            Some(e) => st1.edges.push((e, present_ix)),
            None => st1.edges,
        };
        EmitV {
            nodes: st1.nodes.push(
                RuntimeNodeV {
                    name: nodes_desc[d as int].name@,
                    kind: NodeRuntime::PresentImage,
                },
            ),
            edges: (if any_acq {
                e1.push((0usize, present_ix))
            } else {
                e1
            }),
            ..st1
        }
    }
}

/// The full emission: the shared acquire node first when any render pass
/// acquires, then each render pass block in resolution order, then the
/// present nodes.
pub open spec fn spec_emit(
    nodes_desc: Seq<DescNode>,
    rst: ResolveV,
    inh: Seq<Heritage>,
    any_acq: bool,
    ctx: CompileContext,
) -> EmitV {
    let st0 = EmitV { nodes: Seq::empty(), edges: Seq::empty(), rp_end: Seq::empty() };
    let st1 = if any_acq {
        EmitV {
            nodes: st0.nodes.push(
                RuntimeNodeV {
                    name: "acquire_present_image"@,
                    kind: NodeRuntime::AcquirePresentImage,
                },
            ),
            ..st0
        }
    } else {
        st0
    };
    let st2 = spec_emit_rps(nodes_desc, rst, inh, any_acq, ctx, rst.rp_emit.len() as int, st1);
    spec_emit_presents(nodes_desc, rst.presents, any_acq, rst.presents.len() as int, st2)
}

/// What compiling a description graph yields: the cycle check first, then
/// heritage propagation, per-node resolution, and the emission of the
/// runtime graph, all deterministic functions of the description and the
/// compile context.
pub open spec fn spec_compile(
    nodes: Seq<DescNode>,
    edges: Seq<(usize, usize)>,
    ctx: CompileContext,
) -> Result<RenderDAGV, CompileError> {
    let n = nodes.len() as int;
    let order = graph::spec_toposort(n, edges);
    if order.len() < n {
        Err(CompileError::CycleDetected)
    } else {
        let inh = spec_heritage(nodes, edges, order).1;
        let owner = spec_owners(nodes, edges, inh);
        let any_acq = spec_any_acquire(nodes, inh);
        match spec_resolve(nodes, edges, order, inh, owner, any_acq, ctx) {
            Err(e) => Err(e),
            Ok(rst) => {
                let em = spec_emit(nodes, rst, inh, any_acq, ctx);
                Ok(
                    RenderDAGV {
                        nodes: em.nodes,
                        edges: em.edges,
                        registry: RegistryV {
                            renderpasses: rst.renderpasses,
                            descriptor_sets: rst.descriptor_sets,
                            pipeline_layouts: rst.pipeline_layouts,
                            framebuffers: rst.framebuffers,
                            pipelines: rst.pipelines,
                        },
                    },
                )
            },
        }
    }
}

struct EmitState {
    nodes: Vec<RuntimeNode>,
    edges: Vec<(usize, usize)>,
    rp_end: Vec<(usize, usize)>,
}

impl View for EmitState {
    type V = EmitV;

    closed spec fn view(&self) -> EmitV {
        EmitV {
            nodes: Seq::new(self.nodes@.len(), |i: int| self.nodes@[i]@),
            edges: self.edges@,
            rp_end: self.rp_end@,
        }
    }
}

#[verifier::loop_isolation(false)]
fn emit_draws_for(
    nodes_desc: &Vec<DescNode>,
    draws: &Vec<(usize, usize)>,
    p: usize,
    bind_ix: usize,
    st: &mut EmitState,
) -> (r: ())
    requires
        forall|t: int|
            0 <= t < draws@.len() ==> (#[trigger] draws@[t]).0 < nodes_desc@.len(),
        bind_ix < old(st)@.nodes.len(),
        spec_emit_wf(old(st)@),
    ensures
        final(st)@ == spec_emit_draws(nodes_desc@, draws@, p, bind_ix, draws@.len() as int, old(st)@),
        spec_emit_wf(final(st)@),
        old(st)@.nodes.len() <= final(st)@.nodes.len(),
{
    let mut k: usize = 0;
    while k < draws.len()
        invariant
            k <= draws@.len(),
            st@ == spec_emit_draws(nodes_desc@, draws@, p, bind_ix, k as int, old(st)@),
            spec_emit_wf(st@),
            old(st)@.nodes.len() <= st@.nodes.len(),
        decreases draws@.len() - k,
    {
        let e = draws[k];
        if e.1 == p {
            let d = e.0;
            let cb: u32 = match &nodes_desc[d].kind {
                NodeBuilder::DrawCommands(cb) => *cb,
                _ => 0,
            };
            let draw_ix = st.nodes.len();
            st.edges.push((bind_ix, draw_ix));
            st.nodes.push(
                RuntimeNode { name: nodes_desc[d].name.clone(), kind: NodeRuntime::DrawCommands(cb) },
            );
            proof {
                assert(st@ =~~= spec_emit_draws(
                    nodes_desc@,
                    draws@,
                    p,
                    bind_ix,
                    k as int + 1,
                    old(st)@,
                ));
            }
        }
        k = k + 1;
    }
}

#[verifier::loop_isolation(false)]
fn emit_pipes_for(
    nodes_desc: &Vec<DescNode>,
    pipes: &Vec<(usize, usize, u64)>,
    draws: &Vec<(usize, usize)>,
    ctx: &CompileContext,
    s: usize,
    begin_sp: usize,
    st: &mut EmitState,
) -> (r: ())
    requires
        forall|t: int|
            0 <= t < pipes@.len() ==> (#[trigger] pipes@[t]).0 < nodes_desc@.len(),
        forall|t: int|
            0 <= t < draws@.len() ==> (#[trigger] draws@[t]).0 < nodes_desc@.len(),
        begin_sp < old(st)@.nodes.len(),
        spec_emit_wf(old(st)@),
    ensures
        final(st)@ == spec_emit_pipes(
            nodes_desc@,
            pipes@,
            draws@,
            *ctx,
            s,
            begin_sp,
            pipes@.len() as int,
            old(st)@,
        ),
        spec_emit_wf(final(st)@),
        old(st)@.nodes.len() <= final(st)@.nodes.len(),
{
    let mut k: usize = 0;
    while k < pipes.len()
        invariant
            k <= pipes@.len(),
            st@ == spec_emit_pipes(
                nodes_desc@,
                pipes@,
                draws@,
                *ctx,
                s,
                begin_sp,
                k as int,
                old(st)@,
            ),
            spec_emit_wf(st@),
            old(st)@.nodes.len() <= st@.nodes.len(),
        decreases pipes@.len() - k,
    {
        let e = pipes[k];
        if e.1 == s {
            let p = e.0;
            let bind_ix = st.nodes.len();
            st.edges.push((begin_sp, bind_ix));
            st.nodes.push(
                RuntimeNode {
                    name: nodes_desc[p].name.clone(),
                    kind: NodeRuntime::BindPipeline(
                        e.2,
                        Some(
                            Rect2D {
                                x: 0,
                                y: 0,
                                width: ctx.surface_width,
                                height: ctx.surface_height,
                            },
                        ),
                        Some(
                            Viewport {
                                x: 0,
                                y: 0,
                                width: ctx.surface_width,
                                height: ctx.surface_height,
                            },
                        ),
                    ),
                },
            );
            proof {
                let st1 = spec_emit_pipes(
                    nodes_desc@,
                    pipes@,
                    draws@,
                    *ctx,
                    s,
                    begin_sp,
                    k as int,
                    old(st)@,
                );
                assert(st@ =~~= EmitV {
                    nodes: st1.nodes.push(
                        RuntimeNodeV {
                            name: nodes_desc@[p as int].name@,
                            kind: NodeRuntime::BindPipeline(
                                e.2,
                                Some(spec_scissor(*ctx)),
                                Some(spec_viewport(*ctx)),
                            ),
                        },
                    ),
                    edges: st1.edges.push((begin_sp, bind_ix)),
                    ..st1
                });
            }
            emit_draws_for(nodes_desc, draws, p, bind_ix, st);
            proof {
                assert(st@ == spec_emit_pipes(
                    nodes_desc@,
                    pipes@,
                    draws@,
                    *ctx,
                    s,
                    begin_sp,
                    k as int + 1,
                    old(st)@,
                ));
            }
        }
        k = k + 1;
    }
}

#[verifier::loop_isolation(false)]
fn emit_subs_for(
    nodes_desc: &Vec<DescNode>,
    rp_subs: &Vec<(usize, usize, u8)>,
    pipes: &Vec<(usize, usize, u64)>,
    draws: &Vec<(usize, usize)>,
    ctx: &CompileContext,
    v: usize,
    begin_rp: usize,
    st: &mut EmitState,
) -> (ends: Vec<usize>)
    requires
        forall|t: int|
            0 <= t < rp_subs@.len() ==> (#[trigger] rp_subs@[t]).1 < nodes_desc@.len(),
        forall|t: int|
            0 <= t < pipes@.len() ==> (#[trigger] pipes@[t]).0 < nodes_desc@.len(),
        forall|t: int|
            0 <= t < draws@.len() ==> (#[trigger] draws@[t]).0 < nodes_desc@.len(),
        begin_rp < old(st)@.nodes.len(),
        spec_emit_wf(old(st)@),
    ensures
        ({
            let r = spec_emit_subs(
                nodes_desc@,
                rp_subs@,
                pipes@,
                draws@,
                *ctx,
                v,
                begin_rp,
                rp_subs@.len() as int,
                old(st)@,
                None,
                Seq::empty(),
            );
            final(st)@ == r.0 && ends@ == r.2
        }),
        spec_emit_wf(final(st)@),
        old(st)@.nodes.len() <= final(st)@.nodes.len(),
        forall|t: int| 0 <= t < ends@.len() ==> (#[trigger] ends@[t]) < final(st)@.nodes.len(),
{
    let mut ends: Vec<usize> = Vec::new();
    let mut prev_end: Option<usize> = None;
    let mut k: usize = 0;
    while k < rp_subs.len()
        invariant
            k <= rp_subs@.len(),
            ({
                let r = spec_emit_subs(
                    nodes_desc@,
                    rp_subs@,
                    pipes@,
                    draws@,
                    *ctx,
                    v,
                    begin_rp,
                    k as int,
                    old(st)@,
                    None,
                    Seq::empty(),
                );
                st@ == r.0 && prev_end == r.1 && ends@ == r.2
            }),
            spec_emit_wf(st@),
            old(st)@.nodes.len() <= st@.nodes.len(),
            match prev_end {
                Some(pe) => pe < st@.nodes.len(),
                None => true,
            },
            forall|t: int| 0 <= t < ends@.len() ==> (#[trigger] ends@[t]) < st@.nodes.len(),
        decreases rp_subs@.len() - k,
    {
        let e = rp_subs[k];
        if e.0 == v {
            let s = e.1;
            let idx = e.2;
            let ghost st1 = st@;
            let begin_sp = st.nodes.len();
            st.edges.push((begin_rp, begin_sp));
            match prev_end {
                Some(pe) => {
                    st.edges.push((pe, begin_sp));
                },
                None => {},
            }
            st.nodes.push(
                RuntimeNode {
                    name: nodes_desc[s].name.clone(),
                    kind: NodeRuntime::BeginSubPass(idx),
                },
            );
            proof {
                assert(st@ =~~= EmitV {
                    nodes: st1.nodes.push(
                        RuntimeNodeV {
                            name: nodes_desc@[s as int].name@,
                            kind: NodeRuntime::BeginSubPass(idx),
                        },
                    ),
                    edges: (match prev_end {
                        Some(pe) => st1.edges.push((begin_rp, begin_sp)).push((pe, begin_sp)),
                        None => st1.edges.push((begin_rp, begin_sp)),
                    }),
                    ..st1
                });
            }
            emit_pipes_for(nodes_desc, pipes, draws, ctx, s, begin_sp, st);
            let ghost st3 = st@;
            let end_sp = st.nodes.len();
            let mut t2: usize = begin_sp;
            while t2 < end_sp
                invariant
                    begin_sp <= t2 <= end_sp,
                    end_sp == st3.nodes.len(),
                    st@ == (EmitV {
                        edges: st3.edges + Seq::new(
                            (t2 - begin_sp) as nat,
                            |t: int| ((begin_sp + t) as usize, end_sp),
                        ),
                        ..st3
                    }),
                decreases end_sp - t2,
            {
                st.edges.push((t2, end_sp));
                proof {
                    assert(st@.edges =~= st3.edges + Seq::new(
                        (t2 + 1 - begin_sp) as nat,
                        |t: int| ((begin_sp + t) as usize, end_sp),
                    ));
                    assert(st@ =~~= EmitV {
                        edges: st3.edges + Seq::new(
                            (t2 + 1 - begin_sp) as nat,
                            |t: int| ((begin_sp + t) as usize, end_sp),
                        ),
                        ..st3
                    });
                }
                t2 = t2 + 1;
            }
            st.nodes.push(
                RuntimeNode { name: nodes_desc[s].name.clone(), kind: NodeRuntime::EndSubPass(idx) },
            );
            ends.push(end_sp);
            prev_end = Some(end_sp);
            proof {
                let r_prev = spec_emit_subs(
                    nodes_desc@,
                    rp_subs@,
                    pipes@,
                    draws@,
                    *ctx,
                    v,
                    begin_rp,
                    k as int,
                    old(st)@,
                    None,
                    Seq::empty(),
                );
                let r_next = spec_emit_subs(
                    nodes_desc@,
                    rp_subs@,
                    pipes@,
                    draws@,
                    *ctx,
                    v,
                    begin_rp,
                    k as int + 1,
                    old(st)@,
                    None,
                    Seq::empty(),
                );
                assert(st@ =~~= r_next.0);
                assert(ends@ =~= r_next.2);
            }
        }
        k = k + 1;
    }
    ends
}

#[verifier::loop_isolation(false)]
fn emit_one_rp(
    nodes_desc: &Vec<DescNode>,
    rst: &ResolveState,
    inh: &Vec<Heritage>,
    any_acq: bool,
    ctx: &CompileContext,
    r: usize,
    st: &mut EmitState,
) -> (rr: ())
    requires
        spec_lists_bounded(rst@, nodes_desc@.len() as int),
        inh@.len() == nodes_desc@.len(),
        r < rst@.rp_emit.len(),
        r < rst@.renderpasses.len(),
        any_acq ==> old(st)@.nodes.len() >= 1,
        spec_emit_wf(old(st)@),
    ensures
        final(st)@ == spec_emit_rp(nodes_desc@, rst@, inh@, any_acq, *ctx, r as int, old(st)@),
        spec_emit_wf(final(st)@),
        old(st)@.nodes.len() <= final(st)@.nodes.len(),
{
    let v = rst.rp_emit[r];
    let handle = rst.renderpasses[r].handle;
    let base = st.nodes.len();
    let mut k: usize = 0;
    while k < rst.fbs.len()
        invariant
            k <= rst@.fbs.len(),
            st@ == spec_emit_fbs(nodes_desc@, rst@.fbs, v, k as int, old(st)@),
            spec_emit_wf(st@),
            old(st)@.nodes.len() <= st@.nodes.len(),
        decreases rst@.fbs.len() - k,
    {
        let e = rst.fbs[k];
        if e.1 == v {
            st.nodes.push(
                RuntimeNode {
                    name: nodes_desc[e.0].name.clone(),
                    kind: NodeRuntime::Framebuffer(e.2),
                },
            );
            proof {
                assert(st@ =~~= spec_emit_fbs(nodes_desc@, rst@.fbs, v, k as int + 1, old(st)@));
            }
        }
        k = k + 1;
    }
    let ghost st_a = st@;
    let begin_rp = st.nodes.len();
    st.nodes.push(
        RuntimeNode { name: nodes_desc[v].name.clone(), kind: NodeRuntime::BeginRenderPass(handle) },
    );
    let mut t2: usize = base;
    while t2 < begin_rp
        invariant
            base <= t2 <= begin_rp,
            st@ == (EmitV {
                nodes: st_a.nodes.push(
                    RuntimeNodeV {
                        name: nodes_desc@[v as int].name@,
                        kind: NodeRuntime::BeginRenderPass(handle),
                    },
                ),
                edges: st_a.edges + Seq::new(
                    (t2 - base) as nat,
                    |t: int| ((base + t) as usize, begin_rp),
                ),
                ..st_a
            }),
        decreases begin_rp - t2,
    {
        st.edges.push((t2, begin_rp));
        proof {
            assert(st@.edges =~= st_a.edges + Seq::new(
                (t2 + 1 - base) as nat,
                |t: int| ((base + t) as usize, begin_rp),
            ));
            assert(st@ =~~= EmitV {
                nodes: st_a.nodes.push(
                    RuntimeNodeV {
                        name: nodes_desc@[v as int].name@,
                        kind: NodeRuntime::BeginRenderPass(handle),
                    },
                ),
                edges: st_a.edges + Seq::new(
                    (t2 + 1 - base) as nat,
                    |t: int| ((base + t) as usize, begin_rp),
                ),
                ..st_a
            });
        }
        t2 = t2 + 1;
    }
    if any_acq && inh[v].acquire {
        st.edges.push((0, begin_rp));
    }
    proof {
        assert(st@ =~~= spec_emit_rp_begin(nodes_desc@, rst@, inh@, any_acq, r as int, old(st)@));
        assert(spec_emit_wf(st@));
        assert(rst@.rp_subs == rst.rp_subs@);
        assert(rst@.pipes == rst.pipes@);
        assert(rst@.draws == rst.draws@);
    }
    let ends = emit_subs_for(nodes_desc, &rst.rp_subs, &rst.pipes, &rst.draws, ctx, v, begin_rp, st);
    let ghost st_c = st@;
    let end_rp = st.nodes.len();
    st.nodes.push(
        RuntimeNode { name: nodes_desc[v].name.clone(), kind: NodeRuntime::EndRenderPass(handle) },
    );
    st.edges.push((begin_rp, end_rp));
    let mut t3: usize = 0;
    while t3 < ends.len()
        invariant
            t3 <= ends@.len(),
            end_rp == st_c.nodes.len(),
            st@ == (EmitV {
                nodes: st_c.nodes.push(
                    RuntimeNodeV {
                        name: nodes_desc@[v as int].name@,
                        kind: NodeRuntime::EndRenderPass(handle),
                    },
                ),
                edges: st_c.edges.push((begin_rp, end_rp)) + Seq::new(
                    t3 as nat,
                    |t: int| (ends@[t], end_rp),
                ),
                ..st_c
            }),
        decreases ends@.len() - t3,
    {
        let e = ends[t3];
        st.edges.push((e, end_rp));
        proof {
            assert(st@.edges =~= st_c.edges.push((begin_rp, end_rp)) + Seq::new(
                (t3 + 1) as nat,
                |t: int| (ends@[t], end_rp),
            ));
            assert(st@ =~~= EmitV {
                nodes: st_c.nodes.push(
                    RuntimeNodeV {
                        name: nodes_desc@[v as int].name@,
                        kind: NodeRuntime::EndRenderPass(handle),
                    },
                ),
                edges: st_c.edges.push((begin_rp, end_rp)) + Seq::new(
                    (t3 + 1) as nat,
                    |t: int| (ends@[t], end_rp),
                ),
                ..st_c
            });
        }
        t3 = t3 + 1;
    }
    st.rp_end.push((v, end_rp));
    proof {
        assert(st@ =~~= spec_emit_rp(nodes_desc@, rst@, inh@, any_acq, *ctx, r as int, old(st)@));
    }
}

#[verifier::loop_isolation(false)]
fn emit_all(
    nodes_desc: &Vec<DescNode>,
    rst: &ResolveState,
    inh: &Vec<Heritage>,
    any_acq: bool,
    ctx: &CompileContext,
) -> (r: EmitState)
    requires
        spec_lists_bounded(rst@, nodes_desc@.len() as int),
        inh@.len() == nodes_desc@.len(),
        rst@.rp_emit.len() == rst@.renderpasses.len(),
    ensures
        r@ == spec_emit(nodes_desc@, rst@, inh@, any_acq, *ctx),
        spec_emit_wf(r@),
{
    let mut st = EmitState { nodes: Vec::new(), edges: Vec::new(), rp_end: Vec::new() };
    if any_acq {
        st.nodes.push(
            RuntimeNode {
                name: "acquire_present_image".to_owned(),
                kind: NodeRuntime::AcquirePresentImage,
            },
        );
    }
    let ghost st1 = st@;
    proof {
        let st0 = EmitV { nodes: Seq::empty(), edges: Seq::empty(), rp_end: Seq::empty() };
        if any_acq {
            assert(st@ =~~= EmitV {
                nodes: st0.nodes.push(
                    RuntimeNodeV {
                        name: "acquire_present_image"@,
                        kind: NodeRuntime::AcquirePresentImage,
                    },
                ),
                ..st0
            });
        } else {
            assert(st@ =~~= st0);
        }
    }
    let mut r: usize = 0;
    while r < rst.rp_emit.len()
        invariant
            r <= rst@.rp_emit.len(),
            st@ == spec_emit_rps(nodes_desc@, rst@, inh@, any_acq, *ctx, r as int, st1),
            spec_emit_wf(st@),
            any_acq ==> st@.nodes.len() >= 1,
        decreases rst@.rp_emit.len() - r,
    {
        emit_one_rp(nodes_desc, rst, inh, any_acq, ctx, r, &mut st);
        r = r + 1;
    }
    let mut k: usize = 0;
    while k < rst.presents.len()
        invariant
            k <= rst@.presents.len(),
            st@ == spec_emit_presents(
                nodes_desc@,
                rst@.presents,
                any_acq,
                k as int,
                spec_emit_rps(
                    nodes_desc@,
                    rst@,
                    inh@,
                    any_acq,
                    *ctx,
                    rst@.rp_emit.len() as int,
                    st1,
                ),
            ),
            spec_emit_wf(st@),
            any_acq ==> st@.nodes.len() >= 1,
        decreases rst@.presents.len() - k,
    {
        let e = rst.presents[k];
        let d = e.0;
        let rp = e.1;
        let ghost stp = st@;
        let present_ix = st.nodes.len();
        let mut found: Option<usize> = None;
        let mut j: usize = 0;
        while j < st.rp_end.len()
            invariant
                j <= st@.rp_end.len(),
                st@ == stp,
                found == spec_find_rp_end(st@.rp_end, rp, j as int),
            decreases st@.rp_end.len() - j,
        {
            if found.is_none() {
                let re = st.rp_end[j];
                if re.0 == rp {
                    found = Some(re.1);
                }
            }
            j = j + 1;
        }
        proof {
            lemma_find_rp_end_bounded(st@.rp_end, rp, st@.rp_end.len() as int, st@.nodes.len() as int);
        }
        match found {
            Some(e2) => {
                st.edges.push((e2, present_ix));
            },
            None => {},
        }
        if any_acq {
            st.edges.push((0, present_ix));
        }
        st.nodes.push(
            RuntimeNode { name: nodes_desc[d].name.clone(), kind: NodeRuntime::PresentImage },
        );
        proof {
            assert(st@ =~~= spec_emit_presents(
                nodes_desc@,
                rst@.presents,
                any_acq,
                k as int + 1,
                spec_emit_rps(
                    nodes_desc@,
                    rst@,
                    inh@,
                    any_acq,
                    *ctx,
                    rst@.rp_emit.len() as int,
                    st1,
                ),
            ));
        }
        k = k + 1;
    }
    st
}

impl RenderDAGBuilder {
    /// Compiles the description graph into the runtime graph and resource
    /// registry. This performs no device call: every object to create is
    /// described by a registry entry, and a graph with a cycle fails before
    /// any entry is produced. The result is a deterministic function of the
    /// description graph and the compile context.
    pub fn build(self, ctx: &CompileContext) -> (r: Result<RenderDAG, CompileError>)
        requires
            self.wf(),
        ensures
            match r {
                Ok(dag) => spec_compile(self.nodes@, self.edges@, *ctx) == Ok::<
                    RenderDAGV,
                    CompileError,
                >(dag@) && dag@.wf(),
                Err(e) => spec_compile(self.nodes@, self.edges@, *ctx) == Err::<
                    RenderDAGV,
                    CompileError,
                >(e),
            },
            r is Ok <==> graph::acyclic(self.nodes@.len() as int, self.edges@)
                && spec_deps_satisfied(self.nodes@, self.edges@),
    {
        proof {
            lemma_compile_ok_iff(self.nodes@, self.edges@, *ctx);
        }
        let n = self.nodes.len();
        match graph::toposort(n, &self.edges) {
            None => Err(CompileError::CycleDetected),
            Some(order) => {
                let hr = compute_heritage(&self.nodes, &self.edges, &order);
                let inh = hr.1;
                proof {
                    lemma_heritage_bounded(self.nodes@, self.edges@, order@);
                }
                let owner = compute_owners(&self.nodes, &self.edges, &inh);
                let any_acq = compute_any_acquire(&self.nodes, &inh);
                match resolve_all(&self.nodes, &self.edges, &order, &inh, &owner, any_acq, ctx) {
                    Err(e) => Err(e),
                    Ok(rst) => {
                        proof {
                            lemma_resolve_rp_lens(
                                self.nodes@,
                                self.edges@,
                                order@,
                                inh@,
                                owner@,
                                any_acq,
                                *ctx,
                            );
                        }
                        let em = emit_all(&self.nodes, &rst, &inh, any_acq, ctx);
                        let dag = RenderDAG {
                            nodes: em.nodes,
                            edges: em.edges,
                            registry: ResourceRegistry {
                                renderpasses: rst.renderpasses,
                                descriptor_sets: rst.descriptor_sets,
                                pipeline_layouts: rst.pipeline_layouts,
                                framebuffers: rst.framebuffers,
                                pipelines: rst.pipelines,
                            },
                        };
                        proof {
                            assert(dag@ =~~= spec_compile(
                                self.nodes@,
                                self.edges@,
                                *ctx,
                            ).unwrap());
                        }
                        Ok(dag)
                    },
                }
            },
        }
    }
}

/// A resolved state pairs each emitted render pass with its registry
/// entry: the two lists grow together.
pub open spec fn spec_rp_lens_ok(st: ResolveV) -> bool {
    st.rp_emit.len() == st.renderpasses.len()
}

proof fn lemma_resolve_step_rp_lens(
    nodes: Seq<DescNode>,
    edges: Seq<(usize, usize)>,
    inh: Seq<Heritage>,
    owner: Seq<Option<usize>>,
    any_acq: bool,
    ctx: CompileContext,
    v: usize,
    st: ResolveV,
)
    requires
        spec_rp_lens_ok(st),
        spec_resolve_step(nodes, edges, inh, owner, any_acq, ctx, v, st) is Ok,
    ensures
        spec_rp_lens_ok(spec_resolve_step(nodes, edges, inh, owner, any_acq, ctx, v, st).unwrap()),
{
}

proof fn lemma_resolve_from_rp_lens(
    nodes: Seq<DescNode>,
    edges: Seq<(usize, usize)>,
    order: Seq<usize>,
    inh: Seq<Heritage>,
    owner: Seq<Option<usize>>,
    any_acq: bool,
    ctx: CompileContext,
    t: int,
    st: ResolveV,
)
    requires
        spec_rp_lens_ok(st),
        spec_resolve_from(nodes, edges, order, inh, owner, any_acq, ctx, t, st) is Ok,
    ensures
        spec_rp_lens_ok(
            spec_resolve_from(nodes, edges, order, inh, owner, any_acq, ctx, t, st).unwrap(),
        ),
    decreases order.len() - t,
{
    if 0 <= t < order.len() {
        match spec_resolve_step(nodes, edges, inh, owner, any_acq, ctx, order[t], st) {
            Ok(st2) => {
                lemma_resolve_step_rp_lens(nodes, edges, inh, owner, any_acq, ctx, order[t], st);
                lemma_resolve_from_rp_lens(
                    nodes,
                    edges,
                    order,
                    inh,
                    owner,
                    any_acq,
                    ctx,
                    t + 1,
                    st2,
                );
            },
            Err(_) => {},
        }
    }
}

/// A successful resolution registers exactly one entry per emitted render
/// pass.
pub proof fn lemma_resolve_rp_lens(
    nodes: Seq<DescNode>,
    edges: Seq<(usize, usize)>,
    order: Seq<usize>,
    inh: Seq<Heritage>,
    owner: Seq<Option<usize>>,
    any_acq: bool,
    ctx: CompileContext,
)
    requires
        spec_resolve(nodes, edges, order, inh, owner, any_acq, ctx) is Ok,
    ensures
        spec_rp_lens_ok(spec_resolve(nodes, edges, order, inh, owner, any_acq, ctx).unwrap()),
{
    lemma_resolve_from_rp_lens(
        nodes,
        edges,
        order,
        inh,
        owner,
        any_acq,
        ctx,
        0,
        spec_init_resolve(nodes.len() as int),
    );
}

/// A description graph with a cycle is rejected outright, with
/// [`CompileError::CycleDetected`], before any registry entry or runtime
/// node is produced.
pub proof fn lemma_cycle_rejected(
    nodes: Seq<DescNode>,
    edges: Seq<(usize, usize)>,
    ctx: CompileContext,
)
    requires
        nodes.len() <= usize::MAX,
        graph::edges_wf(nodes.len() as int, edges),
        !graph::acyclic(nodes.len() as int, edges),
    ensures
        spec_compile(nodes, edges, ctx) == Err::<RenderDAGV, CompileError>(
            CompileError::CycleDetected,
        ),
{
    let n = nodes.len() as int;
    graph::lemma_toposort_len(n, edges);
    if graph::spec_toposort(n, edges).len() == n {
        graph::lemma_toposort_complete_acyclic(n, edges);
    }
}

/// Conversely, an acyclic description graph is never rejected for a cycle.
pub proof fn lemma_acyclic_not_cycle_rejected(
    nodes: Seq<DescNode>,
    edges: Seq<(usize, usize)>,
    ctx: CompileContext,
)
    requires
        nodes.len() <= usize::MAX,
        graph::edges_wf(nodes.len() as int, edges),
        graph::acyclic(nodes.len() as int, edges),
    ensures
        spec_compile(nodes, edges, ctx) != Err::<RenderDAGV, CompileError>(
            CompileError::CycleDetected,
        ),
{
    let n = nodes.len() as int;
    graph::lemma_toposort_len(n, edges);
    if graph::spec_toposort(n, edges).len() < n {
        graph::lemma_toposort_stalled_cyclic(n, edges);
    } else {
        let inh = spec_heritage(nodes, edges, graph::spec_toposort(n, edges)).1;
        let owner = spec_owners(nodes, edges, inh);
        let any_acq = spec_any_acquire(nodes, inh);
        lemma_resolve_no_cycle_error(
            nodes,
            edges,
            graph::spec_toposort(n, edges),
            inh,
            owner,
            any_acq,
            ctx,
            0,
            spec_init_resolve(n),
        );
    }
}

/// Resolution reports missing dependencies only, never a cycle.
proof fn lemma_resolve_no_cycle_error(
    nodes: Seq<DescNode>,
    edges: Seq<(usize, usize)>,
    order: Seq<usize>,
    inh: Seq<Heritage>,
    owner: Seq<Option<usize>>,
    any_acq: bool,
    ctx: CompileContext,
    t: int,
    st: ResolveV,
)
    ensures
        spec_resolve_from(nodes, edges, order, inh, owner, any_acq, ctx, t, st)
            != Err::<ResolveV, CompileError>(CompileError::CycleDetected),
    decreases order.len() - t,
{
    if 0 <= t < order.len() {
        match spec_resolve_step(nodes, edges, inh, owner, any_acq, ctx, order[t], st) {
            Ok(st2) => {
                lemma_resolve_no_cycle_error(
                    nodes,
                    edges,
                    order,
                    inh,
                    owner,
                    any_acq,
                    ctx,
                    t + 1,
                    st2,
                );
            },
            Err(_) => {},
        }
    }
}

/// Ascending order of the attachment slots of a compiled render pass.
pub open spec fn spec_atts_sorted(atts: Seq<AttachmentDesc>) -> bool {
    forall|a: int, b: int|
        0 <= a < b < atts.len() ==> (#[trigger] atts[a]).index <= (#[trigger] atts[b]).index
}

pub open spec fn spec_u8s_sorted(s: Seq<u8>) -> bool {
    forall|a: int, b: int| 0 <= a < b < s.len() ==> (#[trigger] s[a]) <= (#[trigger] s[b])
}

/// The registry facts every resolution step maintains: render pass
/// attachments and subpass indices are sorted ascending, and each
/// descriptor set carries exactly `multiplicity` allocated instances.
pub open spec fn spec_registry_laws(st: ResolveV) -> bool {
    &&& forall|r: int|
        0 <= r < st.renderpasses.len() ==> spec_atts_sorted(
            (#[trigger] st.renderpasses[r]).attachments,
        ) && spec_u8s_sorted(st.renderpasses[r].subpass_indices)
    &&& forall|d: int|
        0 <= d < st.descriptor_sets.len() ==> (#[trigger] st.descriptor_sets[d]).set_handles.len()
            == st.descriptor_sets[d].multiplicity
}

proof fn lemma_step_registry_laws(
    nodes: Seq<DescNode>,
    edges: Seq<(usize, usize)>,
    inh: Seq<Heritage>,
    owner: Seq<Option<usize>>,
    any_acq: bool,
    ctx: CompileContext,
    v: usize,
    st: ResolveV,
)
    requires
        spec_registry_laws(st),
        spec_resolve_step(nodes, edges, inh, owner, any_acq, ctx, v, st) is Ok,
    ensures
        spec_registry_laws(
            spec_resolve_step(nodes, edges, inh, owner, any_acq, ctx, v, st).unwrap(),
        ),
{
    match nodes[v as int].kind {
        NodeBuilder::RenderPass => {
            let att_sorted = spec_sort_pairs(
                spec_collect_atts(nodes, edges, v, edges.len() as int),
            );
            let mem_sorted = spec_sort_pairs(
                spec_collect_members(nodes, owner, v, nodes.len() as int),
            );
            lemma_sort_pairs_sorted(spec_collect_atts(nodes, edges, v, edges.len() as int));
            lemma_sort_pairs_sorted(spec_collect_members(nodes, owner, v, nodes.len() as int));
            assert(spec_atts_sorted(spec_atts_of(att_sorted)));
            assert(spec_u8s_sorted(spec_keys(mem_sorted)));
        },
        _ => {},
    }
}

proof fn lemma_resolve_from_registry_laws(
    nodes: Seq<DescNode>,
    edges: Seq<(usize, usize)>,
    order: Seq<usize>,
    inh: Seq<Heritage>,
    owner: Seq<Option<usize>>,
    any_acq: bool,
    ctx: CompileContext,
    t: int,
    st: ResolveV,
)
    requires
        spec_registry_laws(st),
        spec_resolve_from(nodes, edges, order, inh, owner, any_acq, ctx, t, st) is Ok,
    ensures
        spec_registry_laws(
            spec_resolve_from(nodes, edges, order, inh, owner, any_acq, ctx, t, st).unwrap(),
        ),
    decreases order.len() - t,
{
    if 0 <= t < order.len() {
        match spec_resolve_step(nodes, edges, inh, owner, any_acq, ctx, order[t], st) {
            Ok(st2) => {
                lemma_step_registry_laws(nodes, edges, inh, owner, any_acq, ctx, order[t], st);
                lemma_resolve_from_registry_laws(
                    nodes,
                    edges,
                    order,
                    inh,
                    owner,
                    any_acq,
                    ctx,
                    t + 1,
                    st2,
                );
            },
            Err(_) => {},
        }
    }
}

/// Attachment ordering and descriptor multiplicity: in every successfully
/// compiled graph, each render pass's attachment list is sorted ascending
/// by attachment index — whatever order the attachments were declared in —
/// its subpass indices are sorted ascending, and each descriptor set
/// carries exactly `multiplicity` allocated instance handles.
pub proof fn lemma_compile_registry_laws(
    nodes: Seq<DescNode>,
    edges: Seq<(usize, usize)>,
    ctx: CompileContext,
)
    requires
        spec_compile(nodes, edges, ctx) is Ok,
    ensures
        ({
            let dag = spec_compile(nodes, edges, ctx).unwrap();
            &&& forall|r: int|
                0 <= r < dag.registry.renderpasses.len() ==> spec_atts_sorted(
                    (#[trigger] dag.registry.renderpasses[r]).attachments,
                ) && spec_u8s_sorted(dag.registry.renderpasses[r].subpass_indices)
            &&& forall|d: int|
                0 <= d < dag.registry.descriptor_sets.len() ==> (
                #[trigger] dag.registry.descriptor_sets[d]).set_handles.len()
                    == dag.registry.descriptor_sets[d].multiplicity
        }),
{
    let n = nodes.len() as int;
    let order = graph::spec_toposort(n, edges);
    let inh = spec_heritage(nodes, edges, order).1;
    let owner = spec_owners(nodes, edges, inh);
    let any_acq = spec_any_acquire(nodes, inh);
    lemma_resolve_from_registry_laws(
        nodes,
        edges,
        order,
        inh,
        owner,
        any_acq,
        ctx,
        0,
        spec_init_resolve(n),
    );
}

/// Whether a runtime node is a subpass marker.
pub open spec fn spec_is_marker(k: NodeRuntime) -> bool {
    match k {
        NodeRuntime::BeginSubPass(_) => true,
        NodeRuntime::EndSubPass(_) => true,
        _ => false,
    }
}

/// The subpass index a marker carries (zero elsewhere).
pub open spec fn spec_marker_ix(k: NodeRuntime) -> u8 {
    match k {
        NodeRuntime::BeginSubPass(x) => x,
        NodeRuntime::EndSubPass(x) => x,
        _ => 0,
    }
}

proof fn lemma_emit_draws_shape(
    nodes_desc: Seq<DescNode>,
    draws: Seq<(usize, usize)>,
    p: usize,
    bind_ix: usize,
    k: int,
    st: EmitV,
)
    ensures
        ({
            let r = spec_emit_draws(nodes_desc, draws, p, bind_ix, k, st);
            &&& st.nodes.len() <= r.nodes.len()
            &&& forall|i: int| 0 <= i < st.nodes.len() ==> r.nodes[i] == st.nodes[i]
            &&& forall|i: int|
                st.nodes.len() <= i < r.nodes.len() ==> (#[trigger] r.nodes[i]).kind
                    is DrawCommands
        }),
    decreases k,
{
    if k > 0 {
        lemma_emit_draws_shape(nodes_desc, draws, p, bind_ix, k - 1, st);
    }
}

proof fn lemma_emit_pipes_shape(
    nodes_desc: Seq<DescNode>,
    pipes: Seq<(usize, usize, u64)>,
    draws: Seq<(usize, usize)>,
    ctx: CompileContext,
    s: usize,
    begin_sp: usize,
    k: int,
    st: EmitV,
)
    ensures
        ({
            let r = spec_emit_pipes(nodes_desc, pipes, draws, ctx, s, begin_sp, k, st);
            &&& st.nodes.len() <= r.nodes.len()
            &&& forall|i: int| 0 <= i < st.nodes.len() ==> r.nodes[i] == st.nodes[i]
            &&& forall|i: int|
                st.nodes.len() <= i < r.nodes.len() ==> !spec_is_marker(
                    (#[trigger] r.nodes[i]).kind,
                ) && !((r.nodes[i]).kind is BeginRenderPass)
        }),
    decreases k,
{
    if k > 0 {
        lemma_emit_pipes_shape(nodes_desc, pipes, draws, ctx, s, begin_sp, k - 1, st);
        let st1 = spec_emit_pipes(nodes_desc, pipes, draws, ctx, s, begin_sp, k - 1, st);
        if pipes[k - 1].1 == s {
            let p = pipes[k - 1].0;
            let bind_ix = st1.nodes.len() as usize;
            let st2 = EmitV {
                nodes: st1.nodes.push(
                    RuntimeNodeV {
                        name: nodes_desc[p as int].name@,
                        kind: NodeRuntime::BindPipeline(
                            pipes[k - 1].2,
                            Some(spec_scissor(ctx)),
                            Some(spec_viewport(ctx)),
                        ),
                    },
                ),
                edges: st1.edges.push((begin_sp, bind_ix)),
                ..st1
            };
            lemma_emit_draws_shape(nodes_desc, draws, p, bind_ix, draws.len() as int, st2);
        }
    }
}

/// Within the block the fold emits, an end marker of a lower subpass index
/// always stands strictly before a begin marker of a higher one, provided
/// the matching entries arrive in ascending index order.
proof fn lemma_emit_subs_order(
    nodes_desc: Seq<DescNode>,
    rp_subs: Seq<(usize, usize, u8)>,
    pipes: Seq<(usize, usize, u64)>,
    draws: Seq<(usize, usize)>,
    ctx: CompileContext,
    v: usize,
    begin_rp: usize,
    k: int,
    st: EmitV,
    prev_end: Option<usize>,
    ends: Seq<usize>,
)
    requires
        spec_emit_subs(
            nodes_desc,
            rp_subs,
            pipes,
            draws,
            ctx,
            v,
            begin_rp,
            k,
            st,
            prev_end,
            ends,
        ).0.nodes.len() <= usize::MAX,
        forall|t1: int, t2: int|
            0 <= t1 < t2 < k && (#[trigger] rp_subs[t1]).0 == v && (#[trigger] rp_subs[t2]).0 == v
                ==> rp_subs[t1].2 <= rp_subs[t2].2,
    ensures
        ({
            let r = spec_emit_subs(
                nodes_desc,
                rp_subs,
                pipes,
                draws,
                ctx,
                v,
                begin_rp,
                k,
                st,
                prev_end,
                ends,
            );
            &&& st.nodes.len() <= r.0.nodes.len()
            &&& forall|i: int| 0 <= i < st.nodes.len() ==> r.0.nodes[i] == st.nodes[i]
            &&& forall|i: int|
                st.nodes.len() <= i < r.0.nodes.len() && spec_is_marker(
                    (#[trigger] r.0.nodes[i]).kind,
                ) ==> exists|t: int|
                    0 <= t < k && (#[trigger] rp_subs[t]).0 == v && rp_subs[t].2
                        == spec_marker_ix(r.0.nodes[i].kind)
            &&& forall|i: int, j: int|
                st.nodes.len() <= i < j < r.0.nodes.len() && spec_is_marker(
                    (#[trigger] r.0.nodes[i]).kind,
                ) && spec_is_marker((#[trigger] r.0.nodes[j]).kind) ==> spec_marker_ix(
                    r.0.nodes[i].kind,
                ) <= spec_marker_ix(r.0.nodes[j].kind)
            &&& forall|i: int|
                st.nodes.len() <= i < r.0.nodes.len() ==> !((#[trigger] r.0.nodes[i]).kind
                    is BeginRenderPass)
        }),
    decreases k,
{
    if k > 0 {
        let r1 = spec_emit_subs(
            nodes_desc,
            rp_subs,
            pipes,
            draws,
            ctx,
            v,
            begin_rp,
            k - 1,
            st,
            prev_end,
            ends,
        );
        let r = spec_emit_subs(
            nodes_desc,
            rp_subs,
            pipes,
            draws,
            ctx,
            v,
            begin_rp,
            k,
            st,
            prev_end,
            ends,
        );
        if rp_subs[k - 1].0 == v {
            let s = rp_subs[k - 1].1;
            let idx = rp_subs[k - 1].2;
            let st1 = r1.0;
            let begin_sp = st1.nodes.len() as usize;
            let st2 = EmitV {
                nodes: st1.nodes.push(
                    RuntimeNodeV {
                        name: nodes_desc[s as int].name@,
                        kind: NodeRuntime::BeginSubPass(idx),
                    },
                ),
                edges: (match r1.1 {
                    Some(pe) => st1.edges.push((begin_rp, begin_sp)).push((pe, begin_sp)),
                    None => st1.edges.push((begin_rp, begin_sp)),
                }),
                ..st1
            };
            lemma_emit_pipes_shape(
                nodes_desc,
                pipes,
                draws,
                ctx,
                s,
                begin_sp,
                pipes.len() as int,
                st2,
            );
            let st3 = spec_emit_pipes(nodes_desc, pipes, draws, ctx, s, begin_sp, pipes.len() as int, st2);
            assert(r1.0.nodes.len() < st3.nodes.len() + 1);
            lemma_emit_subs_order(
                nodes_desc,
                rp_subs,
                pipes,
                draws,
                ctx,
                v,
                begin_rp,
                k - 1,
                st,
                prev_end,
                ends,
            );
            let end_sp = st3.nodes.len() as usize;
            assert forall|i: int|
                st.nodes.len() <= i < r.0.nodes.len() && spec_is_marker(
                    (#[trigger] r.0.nodes[i]).kind,
                ) implies exists|t: int|
                0 <= t < k && (#[trigger] rp_subs[t]).0 == v && rp_subs[t].2 == spec_marker_ix(
                    r.0.nodes[i].kind,
                ) by {
                let x = spec_marker_ix(r.0.nodes[i].kind);
                if i < st1.nodes.len() {
                    assert(r.0.nodes[i] == r1.0.nodes[i]);
                    let t = choose|t: int|
                        0 <= t < k - 1 && (#[trigger] rp_subs[t]).0 == v && rp_subs[t].2
                            == spec_marker_ix(r1.0.nodes[i].kind);
                    assert(rp_subs[t].0 == v && rp_subs[t].2 == x);
                } else if i == begin_sp || i == end_sp {
                    assert(rp_subs[k - 1].0 == v && rp_subs[k - 1].2 == x);
                } else {
                    assert(st2.nodes.len() <= i < st3.nodes.len());
                    assert(!spec_is_marker(r.0.nodes[i].kind));
                }
            }
            assert forall|i: int, j: int|
                st.nodes.len() <= i < j < r.0.nodes.len() && spec_is_marker(
                    (#[trigger] r.0.nodes[i]).kind,
                ) && spec_is_marker((#[trigger] r.0.nodes[j]).kind) implies spec_marker_ix(
                r.0.nodes[i].kind,
            ) <= spec_marker_ix(r.0.nodes[j].kind) by {
                if j < st1.nodes.len() {
                    // both markers predate this entry
                    assert(r.0.nodes[i] == r1.0.nodes[i]);
                    assert(r.0.nodes[j] == r1.0.nodes[j]);
                } else if i < st1.nodes.len() {
                    // an older marker against one of this entry's markers,
                    // which carry the largest index seen so far
                    assert(r.0.nodes[i] == r1.0.nodes[i]);
                    assert(spec_is_marker(r1.0.nodes[i].kind));
                    let t = choose|t: int|
                        0 <= t < k - 1 && (#[trigger] rp_subs[t]).0 == v && rp_subs[t].2
                            == spec_marker_ix(r1.0.nodes[i].kind);
                    assert(rp_subs[t].2 <= rp_subs[k - 1].2);
                    if j == begin_sp || j == end_sp {
                    } else {
                        assert(st2.nodes.len() <= j < st3.nodes.len());
                        assert(!spec_is_marker(r.0.nodes[j].kind));
                    }
                } else {
                    // both markers belong to this entry and carry its index
                    if i == begin_sp || i == end_sp {
                    } else {
                        assert(st2.nodes.len() <= i < st3.nodes.len());
                        assert(!spec_is_marker(r.0.nodes[i].kind));
                    }
                    if j == begin_sp || j == end_sp {
                    } else {
                        assert(st2.nodes.len() <= j < st3.nodes.len());
                        assert(!spec_is_marker(r.0.nodes[j].kind));
                    }
                }
            }
            assert forall|i: int|
                st.nodes.len() <= i < r.0.nodes.len() implies !((#[trigger] r.0.nodes[i]).kind
                is BeginRenderPass) by {
                if i < st1.nodes.len() {
                    assert(r.0.nodes[i] == r1.0.nodes[i]);
                } else if i == begin_sp || i == end_sp {
                } else {
                    assert(st2.nodes.len() <= i < st3.nodes.len());
                }
            }
        } else {
            lemma_emit_subs_order(
                nodes_desc,
                rp_subs,
                pipes,
                draws,
                ctx,
                v,
                begin_rp,
                k - 1,
                st,
                prev_end,
                ends,
            );
        }
    }
}

/// Subpass chaining, per render pass: the subpass markers emitted for one
/// render pass appear in ascending subpass-index order, whatever order
/// the subpasses were declared in. In particular the end marker of a
/// lower-index subpass stands strictly before the begin marker of any
/// higher-index one, and the node order is the execution order, so the
/// lower subpass finishes recording before the higher one starts.
pub proof fn lemma_subpass_chaining(
    nodes_desc: Seq<DescNode>,
    rp_subs: Seq<(usize, usize, u8)>,
    pipes: Seq<(usize, usize, u64)>,
    draws: Seq<(usize, usize)>,
    ctx: CompileContext,
    v: usize,
    begin_rp: usize,
    st: EmitV,
)
    requires
        spec_emit_subs(
            nodes_desc,
            rp_subs,
            pipes,
            draws,
            ctx,
            v,
            begin_rp,
            rp_subs.len() as int,
            st,
            None,
            Seq::empty(),
        ).0.nodes.len() <= usize::MAX,
        forall|t1: int, t2: int|
            0 <= t1 < t2 < rp_subs.len() && (#[trigger] rp_subs[t1]).0 == v && (
            #[trigger] rp_subs[t2]).0 == v ==> rp_subs[t1].2 <= rp_subs[t2].2,
    ensures
        ({
            let r = spec_emit_subs(
                nodes_desc,
                rp_subs,
                pipes,
                draws,
                ctx,
                v,
                begin_rp,
                rp_subs.len() as int,
                st,
                None,
                Seq::empty(),
            );
            forall|i: int, j: int|
                st.nodes.len() <= i < j < r.0.nodes.len() && spec_is_marker(
                    (#[trigger] r.0.nodes[i]).kind,
                ) && spec_is_marker((#[trigger] r.0.nodes[j]).kind) ==> spec_marker_ix(
                    r.0.nodes[i].kind,
                ) <= spec_marker_ix(r.0.nodes[j].kind)
        }),
{
    lemma_emit_subs_order(
        nodes_desc,
        rp_subs,
        pipes,
        draws,
        ctx,
        v,
        begin_rp,
        rp_subs.len() as int,
        st,
        None,
        Seq::empty(),
    );
}

/// The node kinds a heritage refers to match its roles: the inherited
/// render pass is a render pass node, the inherited subpass a subpass
/// node, the inherited pipeline layout a pipeline layout node.
pub open spec fn spec_heritage_kinds(nodes: Seq<DescNode>, h: Heritage) -> bool {
    &&& match h.rp {
        Some(r) => r < nodes.len() && nodes[r as int].kind is RenderPass,
        None => true,
    }
    &&& match h.subpass {
        Some(s) => s < nodes.len() && nodes[s as int].kind is Subpass,
        None => true,
    }
    &&& match h.layout {
        Some(l) => l < nodes.len() && nodes[l as int].kind is PipelineLayout,
        None => true,
    }
}

proof fn lemma_inherit_row_kinds(
    nodes: Seq<DescNode>,
    edges: Seq<(usize, usize)>,
    flows: Seq<Heritage>,
    v: usize,
    k: int,
)
    requires
        graph::edges_wf(nodes.len() as int, edges),
        flows.len() == nodes.len(),
        forall|t: int| 0 <= t < flows.len() ==> spec_heritage_kinds(nodes, #[trigger] flows[t]),
        k <= edges.len(),
    ensures
        spec_heritage_kinds(nodes, spec_inherit_row(edges, flows, v, k)),
    decreases k,
{
    if k > 0 {
        lemma_inherit_row_kinds(nodes, edges, flows, v, k - 1);
    }
}

proof fn lemma_heritage_from_kinds(
    nodes: Seq<DescNode>,
    edges: Seq<(usize, usize)>,
    order: Seq<usize>,
    t: int,
    flows: Seq<Heritage>,
    inh: Seq<Heritage>,
)
    requires
        graph::edges_wf(nodes.len() as int, edges),
        forall|u: int| 0 <= u < order.len() ==> (#[trigger] order[u]) < nodes.len(),
        flows.len() == nodes.len(),
        inh.len() == nodes.len(),
        forall|u: int| 0 <= u < nodes.len() ==> spec_heritage_kinds(nodes, #[trigger] flows[u]),
        forall|u: int| 0 <= u < nodes.len() ==> spec_heritage_kinds(nodes, #[trigger] inh[u]),
    ensures
        forall|u: int|
            0 <= u < nodes.len() ==> spec_heritage_kinds(
                nodes,
                #[trigger] spec_heritage_from(nodes, edges, order, t, flows, inh).1[u],
            ),
    decreases order.len() - t,
{
    if 0 <= t < order.len() {
        let v = order[t];
        let h = spec_inherit_row(edges, flows, v, edges.len() as int);
        lemma_inherit_row_kinds(nodes, edges, flows, v, edges.len() as int);
        assert(spec_heritage_kinds(nodes, spec_own_mark(h, v, nodes[v as int].kind)));
        let flows2 = flows.update(v as int, spec_own_mark(h, v, nodes[v as int].kind));
        let inh2 = inh.update(v as int, h);
        assert forall|u: int|
            0 <= u < nodes.len() implies spec_heritage_kinds(nodes, #[trigger] flows2[u]) by {
            if u != v as int {
                assert(flows2[u] == flows[u]);
            }
        }
        assert forall|u: int|
            0 <= u < nodes.len() implies spec_heritage_kinds(nodes, #[trigger] inh2[u]) by {
            if u != v as int {
                assert(inh2[u] == inh[u]);
            }
        }
        lemma_heritage_from_kinds(nodes, edges, order, t + 1, flows2, inh2);
        assert(spec_heritage_from(nodes, edges, order, t, flows, inh) == spec_heritage_from(
            nodes,
            edges,
            order,
            t + 1,
            flows2,
            inh2,
        ));
    }
}

proof fn lemma_heritage_kinds(nodes: Seq<DescNode>, edges: Seq<(usize, usize)>, order: Seq<usize>)
    requires
        graph::edges_wf(nodes.len() as int, edges),
        forall|u: int| 0 <= u < order.len() ==> (#[trigger] order[u]) < nodes.len(),
    ensures
        forall|u: int|
            0 <= u < nodes.len() ==> spec_heritage_kinds(
                nodes,
                #[trigger] spec_heritage(nodes, edges, order).1[u],
            ),
{
    lemma_heritage_from_kinds(
        nodes,
        edges,
        order,
        0,
        Seq::new(nodes.len(), |i: int| spec_empty_heritage()),
        Seq::new(nodes.len(), |i: int| spec_empty_heritage()),
    );
}

proof fn lemma_owner_scan_kind(nodes: Seq<DescNode>, edges: Seq<(usize, usize)>, s: usize, k: int)
    requires
        graph::edges_wf(nodes.len() as int, edges),
        k <= edges.len(),
    ensures
        match spec_owner_scan(nodes, edges, s, k) {
            Some(r) => r < nodes.len() && nodes[r as int].kind is RenderPass,
            None => true,
        },
    decreases k,
{
    if k > 0 {
        lemma_owner_scan_kind(nodes, edges, s, k - 1);
    }
}

proof fn lemma_owner_kinds(
    nodes: Seq<DescNode>,
    edges: Seq<(usize, usize)>,
    inh: Seq<Heritage>,
    s: int,
)
    requires
        graph::edges_wf(nodes.len() as int, edges),
        0 <= s < nodes.len(),
        spec_heritage_kinds(nodes, inh[s]),
    ensures
        match spec_owner_of(nodes, edges, inh, s) {
            Some(r) => r < nodes.len() && nodes[r as int].kind is RenderPass,
            None => true,
        },
{
    lemma_owner_scan_kind(nodes, edges, s as usize, edges.len() as int);
}

/// At step `t` of the resolution walk, the resolved render pass handles
/// are exactly those of the render passes already walked.
pub open spec fn spec_rp_handle_inv(
    nodes: Seq<DescNode>,
    order: Seq<usize>,
    st: ResolveV,
    t: int,
) -> bool {
    forall|x: int|
        0 <= x < nodes.len() ==> ((#[trigger] st.rp_handle[x]) is Some <==> nodes[x].kind
            is RenderPass && graph::pos_of(order, x as usize) < t)
}

/// At step `t` of the resolution walk, the resolved pipeline layout
/// handles are exactly those of the pipeline layouts already walked.
pub open spec fn spec_pl_handle_inv(
    nodes: Seq<DescNode>,
    order: Seq<usize>,
    st: ResolveV,
    t: int,
) -> bool {
    forall|x: int|
        0 <= x < nodes.len() ==> ((#[trigger] st.pl_handle[x]) is Some <==> nodes[x].kind
            is PipelineLayout && graph::pos_of(order, x as usize) < t)
}

/// What each node needs of the graph around it for its resolution step to
/// go through: a pipeline needs an upstream subpass whose render pass is
/// resolved before the pipeline, and an upstream pipeline layout resolved
/// before it; a draw needs an upstream pipeline; a present needs an
/// upstream render pass and an image acquire somewhere in the graph; a
/// framebuffer needs its upstream render pass resolved before it.
/// Positions refer to the deterministic topological order.
pub open spec fn spec_node_deps_ok(
    nodes: Seq<DescNode>,
    order: Seq<usize>,
    inh: Seq<Heritage>,
    owner: Seq<Option<usize>>,
    any_acq: bool,
    v: int,
) -> bool {
    match nodes[v].kind {
        NodeBuilder::GraphicsPipeline => {
            &&& match inh[v].subpass {
                Some(s) => match owner[s as int] {
                    Some(rp) => graph::pos_of(order, rp) < graph::pos_of(order, v as usize),
                    None => false,
                },
                None => false,
            }
            &&& match inh[v].layout {
                Some(l) => graph::pos_of(order, l) < graph::pos_of(order, v as usize),
                None => false,
            }
        },
        NodeBuilder::DrawCommands(_) => inh[v].pipeline is Some,
        NodeBuilder::PresentImage => inh[v].rp is Some && any_acq,
        NodeBuilder::Framebuffer => match inh[v].rp {
            Some(rp) => graph::pos_of(order, rp) < graph::pos_of(order, v as usize),
            None => false,
        },
        _ => true,
    }
}

/// Every node's dependencies are satisfied, over the heritage and
/// ownership the compiler derives from the graph.
pub open spec fn spec_deps_satisfied(nodes: Seq<DescNode>, edges: Seq<(usize, usize)>) -> bool {
    let order = graph::spec_toposort(nodes.len() as int, edges);
    let inh = spec_heritage(nodes, edges, order).1;
    let owner = spec_owners(nodes, edges, inh);
    let any_acq = spec_any_acquire(nodes, inh);
    forall|v: int|
        0 <= v < nodes.len() ==> spec_node_deps_ok(nodes, order, inh, owner, any_acq, v)
}

/// One resolution step goes through exactly when the node's dependencies
/// are satisfied, and it keeps the render pass and pipeline layout handle
/// tables in step with the walk.
proof fn lemma_step_ok_iff_deps(
    nodes: Seq<DescNode>,
    edges: Seq<(usize, usize)>,
    order: Seq<usize>,
    inh: Seq<Heritage>,
    owner: Seq<Option<usize>>,
    any_acq: bool,
    ctx: CompileContext,
    t: int,
    st: ResolveV,
)
    requires
        nodes.len() <= usize::MAX,
        graph::is_topo_order(nodes.len() as int, edges, order),
        graph::edges_wf(nodes.len() as int, edges),
        inh.len() == nodes.len(),
        owner.len() == nodes.len(),
        forall|u: int| 0 <= u < nodes.len() ==> spec_heritage_kinds(nodes, #[trigger] inh[u]),
        forall|u: int|
            0 <= u < nodes.len() ==> match #[trigger] owner[u] {
                Some(r) => r < nodes.len() && nodes[r as int].kind is RenderPass,
                None => true,
            },
        0 <= t < order.len(),
        spec_tables_wf(st, nodes.len() as int),
        spec_rp_handle_inv(nodes, order, st, t),
        spec_pl_handle_inv(nodes, order, st, t),
    ensures
        ({
            let v = order[t];
            let step = spec_resolve_step(nodes, edges, inh, owner, any_acq, ctx, v, st);
            &&& (step is Ok <==> spec_node_deps_ok(nodes, order, inh, owner, any_acq, v as int))
            &&& (step is Ok ==> spec_rp_handle_inv(nodes, order, step.unwrap(), t + 1)
                && spec_pl_handle_inv(nodes, order, step.unwrap(), t + 1) && spec_tables_wf(
                step.unwrap(),
                nodes.len() as int,
            ))
        }),
{
    let v = order[t];
    graph::lemma_pos_of_unique(order, v, t);
    let step = spec_resolve_step(nodes, edges, inh, owner, any_acq, ctx, v, st);
    assert forall|x: int|
        0 <= x < nodes.len() && #[trigger] graph::pos_of(order, x as usize) == t implies x == v
        as int by {
        assert(order.contains(x as usize));
        graph::lemma_pos_of_contains(order, x as usize);
    }
    match nodes[v as int].kind {
        NodeBuilder::RenderPass => {
            let st2 = spec_step_render_pass(nodes, edges, owner, v, st);
            assert forall|x: int|
                0 <= x < nodes.len() implies ((#[trigger] st2.rp_handle[x]) is Some
                <==> nodes[x].kind is RenderPass && graph::pos_of(order, x as usize) < t + 1) by {
                if x != v as int {
                    assert(st2.rp_handle[x] == st.rp_handle[x]);
                    if graph::pos_of(order, x as usize) == t {
                        assert(order.contains(x as usize));
                        graph::lemma_pos_of_contains(order, x as usize);
                    }
                }
            }
            assert forall|x: int|
                0 <= x < nodes.len() implies ((#[trigger] st2.pl_handle[x]) is Some
                <==> nodes[x].kind is PipelineLayout && graph::pos_of(order, x as usize) < t
                    + 1) by {
                assert(st2.pl_handle[x] == st.pl_handle[x]);
                if graph::pos_of(order, x as usize) == t {
                    assert(order.contains(x as usize));
                    graph::lemma_pos_of_contains(order, x as usize);
                }
            }
        },
        NodeBuilder::PipelineLayout => {
            let st2 = spec_step_pipeline_layout(nodes, edges, v, st);
            assert forall|x: int|
                0 <= x < nodes.len() implies ((#[trigger] st2.pl_handle[x]) is Some
                <==> nodes[x].kind is PipelineLayout && graph::pos_of(order, x as usize) < t
                    + 1) by {
                if x != v as int {
                    assert(st2.pl_handle[x] == st.pl_handle[x]);
                    if graph::pos_of(order, x as usize) == t {
                        assert(order.contains(x as usize));
                        graph::lemma_pos_of_contains(order, x as usize);
                    }
                }
            }
            assert forall|x: int|
                0 <= x < nodes.len() implies ((#[trigger] st2.rp_handle[x]) is Some
                <==> nodes[x].kind is RenderPass && graph::pos_of(order, x as usize) < t + 1) by {
                assert(st2.rp_handle[x] == st.rp_handle[x]);
                if graph::pos_of(order, x as usize) == t {
                    assert(order.contains(x as usize));
                    graph::lemma_pos_of_contains(order, x as usize);
                }
            }
        },
        NodeBuilder::GraphicsPipeline => {
            match inh[v as int].subpass {
                Some(s) => {
                    match owner[s as int] {
                        Some(rp) => {
                            if graph::pos_of(order, rp) < t {
                                assert(st.rp_handle[rp as int] is Some);
                            } else {
                                assert(st.rp_handle[rp as int] is None);
                                assert(step is Err);
                            }
                        },
                        None => {},
                    }
                },
                None => {},
            }
            match inh[v as int].layout {
                Some(l) => {
                    if graph::pos_of(order, l) < t {
                        assert(st.pl_handle[l as int] is Some);
                    } else {
                        assert(st.pl_handle[l as int] is None);
                    }
                },
                None => {},
            }
            if step is Ok {
                let st2 = step.unwrap();
                assert(st2.rp_handle == st.rp_handle);
                assert(st2.pl_handle == st.pl_handle);
                assert forall|x: int|
                    0 <= x < nodes.len() implies ((#[trigger] st2.rp_handle[x]) is Some
                    <==> nodes[x].kind is RenderPass && graph::pos_of(order, x as usize) < t
                        + 1) by {
                    if graph::pos_of(order, x as usize) == t {
                        assert(order.contains(x as usize));
                        graph::lemma_pos_of_contains(order, x as usize);
                    }
                }
                assert forall|x: int|
                    0 <= x < nodes.len() implies ((#[trigger] st2.pl_handle[x]) is Some
                    <==> nodes[x].kind is PipelineLayout && graph::pos_of(order, x as usize) < t
                        + 1) by {
                    if graph::pos_of(order, x as usize) == t {
                        assert(order.contains(x as usize));
                        graph::lemma_pos_of_contains(order, x as usize);
                    }
                }
            }
        },
        NodeBuilder::Framebuffer => {
            match inh[v as int].rp {
                Some(rp) => {
                    if graph::pos_of(order, rp) < t {
                        assert(st.rp_handle[rp as int] is Some);
                        assert(step is Ok);
                    } else {
                        assert(st.rp_handle[rp as int] is None);
                        assert(step is Err);
                    }
                },
                None => {},
            }
            if step is Ok {
                let st2 = step.unwrap();
                assert(st2.rp_handle == st.rp_handle);
                assert(st2.pl_handle == st.pl_handle);
                assert forall|x: int|
                    0 <= x < nodes.len() implies ((#[trigger] st2.rp_handle[x]) is Some
                    <==> nodes[x].kind is RenderPass && graph::pos_of(order, x as usize) < t
                        + 1) by {
                    if graph::pos_of(order, x as usize) == t {
                        assert(order.contains(x as usize));
                        graph::lemma_pos_of_contains(order, x as usize);
                    }
                }
                assert forall|x: int|
                    0 <= x < nodes.len() implies ((#[trigger] st2.pl_handle[x]) is Some
                    <==> nodes[x].kind is PipelineLayout && graph::pos_of(order, x as usize) < t
                        + 1) by {
                    if graph::pos_of(order, x as usize) == t {
                        assert(order.contains(x as usize));
                        graph::lemma_pos_of_contains(order, x as usize);
                    }
                }
            }
        },
        _ => {
            if step is Ok {
                let st2 = step.unwrap();
                assert(st2.rp_handle == st.rp_handle);
                assert(st2.pl_handle == st.pl_handle);
                assert forall|x: int|
                    0 <= x < nodes.len() implies ((#[trigger] st2.rp_handle[x]) is Some
                    <==> nodes[x].kind is RenderPass && graph::pos_of(order, x as usize) < t
                        + 1) by {
                    if graph::pos_of(order, x as usize) == t {
                        assert(order.contains(x as usize));
                        graph::lemma_pos_of_contains(order, x as usize);
                    }
                }
                assert forall|x: int|
                    0 <= x < nodes.len() implies ((#[trigger] st2.pl_handle[x]) is Some
                    <==> nodes[x].kind is PipelineLayout && graph::pos_of(order, x as usize) < t
                        + 1) by {
                    if graph::pos_of(order, x as usize) == t {
                        assert(order.contains(x as usize));
                        graph::lemma_pos_of_contains(order, x as usize);
                    }
                }
            }
        },
    }
}

proof fn lemma_resolve_from_ok_iff(
    nodes: Seq<DescNode>,
    edges: Seq<(usize, usize)>,
    order: Seq<usize>,
    inh: Seq<Heritage>,
    owner: Seq<Option<usize>>,
    any_acq: bool,
    ctx: CompileContext,
    t: int,
    st: ResolveV,
)
    requires
        nodes.len() <= usize::MAX,
        graph::is_topo_order(nodes.len() as int, edges, order),
        graph::edges_wf(nodes.len() as int, edges),
        inh.len() == nodes.len(),
        owner.len() == nodes.len(),
        forall|u: int| 0 <= u < nodes.len() ==> spec_heritage_kinds(nodes, #[trigger] inh[u]),
        forall|u: int|
            0 <= u < nodes.len() ==> match #[trigger] owner[u] {
                Some(r) => r < nodes.len() && nodes[r as int].kind is RenderPass,
                None => true,
            },
        0 <= t <= order.len(),
        spec_tables_wf(st, nodes.len() as int),
        spec_rp_handle_inv(nodes, order, st, t),
        spec_pl_handle_inv(nodes, order, st, t),
    ensures
        spec_resolve_from(nodes, edges, order, inh, owner, any_acq, ctx, t, st) is Ok <==> (
        forall|u: int|
            t <= u < order.len() ==> spec_node_deps_ok(
                nodes,
                order,
                inh,
                owner,
                any_acq,
                order[u] as int,
            )),
    decreases order.len() - t,
{
    if t < order.len() {
        let v = order[t];
        lemma_step_ok_iff_deps(nodes, edges, order, inh, owner, any_acq, ctx, t, st);
        match spec_resolve_step(nodes, edges, inh, owner, any_acq, ctx, v, st) {
            Ok(st2) => {
                lemma_resolve_from_ok_iff(
                    nodes,
                    edges,
                    order,
                    inh,
                    owner,
                    any_acq,
                    ctx,
                    t + 1,
                    st2,
                );
            },
            Err(_) => {},
        }
    }
}

/// Success is owed exactly to the well-formed graphs: compilation returns
/// a runtime graph if and only if the description graph is acyclic and
/// every node's dependencies are satisfied. Together with the compiler
/// being a pinned function of the description and context, this is the
/// whole success contract.
pub proof fn lemma_compile_ok_iff(
    nodes: Seq<DescNode>,
    edges: Seq<(usize, usize)>,
    ctx: CompileContext,
)
    requires
        nodes.len() <= usize::MAX,
        graph::edges_wf(nodes.len() as int, edges),
    ensures
        spec_compile(nodes, edges, ctx) is Ok <==> graph::acyclic(nodes.len() as int, edges)
            && spec_deps_satisfied(nodes, edges),
{
    let n = nodes.len() as int;
    let order = graph::spec_toposort(n, edges);
    graph::lemma_toposort_len(n, edges);
    if order.len() < n {
        graph::lemma_toposort_stalled_cyclic(n, edges);
    } else {
        graph::lemma_toposort_complete_acyclic(n, edges);
        let inh = spec_heritage(nodes, edges, order).1;
        let owner = spec_owners(nodes, edges, inh);
        let any_acq = spec_any_acquire(nodes, inh);
        lemma_heritage_bounded(nodes, edges, order);
        lemma_heritage_kinds(nodes, edges, order);
        assert forall|u: int|
            0 <= u < nodes.len() implies match #[trigger] owner[u] {
            Some(r) => r < nodes.len() && nodes[r as int].kind is RenderPass,
            None => true,
        } by {
            lemma_owner_kinds(nodes, edges, inh, u);
        }
        let st0 = spec_init_resolve(n);
        assert(spec_rp_handle_inv(nodes, order, st0, 0) && spec_pl_handle_inv(
            nodes,
            order,
            st0,
            0,
        )) by {
            assert forall|x: int|
                0 <= x < nodes.len() implies !((#[trigger] st0.rp_handle[x]) is Some) && !(
                st0.pl_handle[x] is Some) && graph::pos_of(order, x as usize) >= 0 by {
                graph::lemma_pos_of_nonneg(order, x as usize);
            }
        }
        lemma_resolve_from_ok_iff(nodes, edges, order, inh, owner, any_acq, ctx, 0, st0);
        assert((forall|u: int|
            0 <= u < order.len() ==> spec_node_deps_ok(
                nodes,
                order,
                inh,
                owner,
                any_acq,
                order[u] as int,
            )) <==> spec_deps_satisfied(nodes, edges)) by {
            if forall|u: int|
                0 <= u < order.len() ==> spec_node_deps_ok(
                    nodes,
                    order,
                    inh,
                    owner,
                    any_acq,
                    order[u] as int,
                ) {
                assert forall|v: int|
                    0 <= v < nodes.len() implies spec_node_deps_ok(
                    nodes,
                    order,
                    inh,
                    owner,
                    any_acq,
                    v,
                ) by {
                    assert(order.contains(v as usize));
                    graph::lemma_pos_of_contains(order, v as usize);
                    let u = graph::pos_of(order, v as usize);
                    assert(order[u] == v as usize);
                    assert(spec_node_deps_ok(nodes, order, inh, owner, any_acq, order[u] as int));
                }
            }
            if spec_deps_satisfied(nodes, edges) {
                assert forall|u: int|
                    0 <= u < order.len() implies spec_node_deps_ok(
                    nodes,
                    order,
                    inh,
                    owner,
                    any_acq,
                    order[u] as int,
                ) by {
                    assert(order[u] < nodes.len());
                }
            }
        }
    }
}

/// The subpass wiring list stays grouped: entries of one render pass are
/// ascending by subpass index, and every listed render pass is already
/// resolved.
pub open spec fn spec_subs_grouped(st: ResolveV, n: int) -> bool {
    &&& forall|t1: int, t2: int|
        0 <= t1 < t2 < st.rp_subs.len() && (#[trigger] st.rp_subs[t1]).0 == (
        #[trigger] st.rp_subs[t2]).0 ==> st.rp_subs[t1].2 <= st.rp_subs[t2].2
    &&& forall|t: int|
        0 <= t < st.rp_subs.len() ==> (#[trigger] st.rp_subs[t]).0 < n && st.rp_handle[(
        st.rp_subs[t]).0 as int] is Some
}

proof fn lemma_step_subs_grouped(
    nodes: Seq<DescNode>,
    edges: Seq<(usize, usize)>,
    order: Seq<usize>,
    inh: Seq<Heritage>,
    owner: Seq<Option<usize>>,
    any_acq: bool,
    ctx: CompileContext,
    t: int,
    st: ResolveV,
)
    requires
        nodes.len() <= usize::MAX,
        graph::is_topo_order(nodes.len() as int, edges, order),
        graph::edges_wf(nodes.len() as int, edges),
        0 <= t < order.len(),
        spec_tables_wf(st, nodes.len() as int),
        spec_rp_handle_inv(nodes, order, st, t),
        spec_subs_grouped(st, nodes.len() as int),
        spec_lists_bounded(st, nodes.len() as int),
        spec_resolve_step(nodes, edges, inh, owner, any_acq, ctx, order[t], st) is Ok,
    ensures
        spec_subs_grouped(
            spec_resolve_step(nodes, edges, inh, owner, any_acq, ctx, order[t], st).unwrap(),
            nodes.len() as int,
        ),
{
    let v = order[t];
    graph::lemma_pos_of_unique(order, v, t);
    let st2 = spec_resolve_step(nodes, edges, inh, owner, any_acq, ctx, v, st).unwrap();
    match nodes[v as int].kind {
        NodeBuilder::RenderPass => {
            // the new group belongs to a pass that was unresolved until now,
            // so it cannot interleave with an older group
            assert(st.rp_handle[v as int] is None);
            let mem_pairs = spec_collect_members(nodes, owner, v, nodes.len() as int);
            let mem_sorted = spec_sort_pairs(mem_pairs);
            lemma_sort_pairs_sorted(mem_pairs);
            let fresh = Seq::new(
                mem_sorted.len(),
                |i: int| (v, mem_sorted[i].1, mem_sorted[i].0),
            );
            assert(st2.rp_subs == st.rp_subs + fresh);
            assert forall|t1: int, t2: int|
                0 <= t1 < t2 < st2.rp_subs.len() && (#[trigger] st2.rp_subs[t1]).0 == (
                #[trigger] st2.rp_subs[t2]).0 implies st2.rp_subs[t1].2 <= st2.rp_subs[t2].2 by {
                if t2 < st.rp_subs.len() {
                } else if t1 >= st.rp_subs.len() {
                    assert(st2.rp_subs[t1].2 == mem_sorted[t1 - st.rp_subs.len()].0);
                    assert(st2.rp_subs[t2].2 == mem_sorted[t2 - st.rp_subs.len()].0);
                } else {
                    // an older entry naming this pass would contradict the
                    // pass having been unresolved
                    assert(st.rp_subs[t1].0 == v);
                    assert(st.rp_handle[v as int] is Some);
                    assert(false);
                }
            }
            assert forall|t3: int|
                0 <= t3 < st2.rp_subs.len() implies (#[trigger] st2.rp_subs[t3]).0
                < nodes.len() && st2.rp_handle[(st2.rp_subs[t3]).0 as int] is Some by {
                if t3 < st.rp_subs.len() {
                    assert(st.rp_handle[(st.rp_subs[t3]).0 as int] is Some);
                    if (st.rp_subs[t3]).0 != v {
                        assert(st2.rp_handle[(st2.rp_subs[t3]).0 as int] == st.rp_handle[(
                        st.rp_subs[t3]).0 as int]);
                    }
                } else {
                    assert(st2.rp_subs[t3].0 == v);
                }
            }
        },
        _ => {
            assert(st2.rp_subs == st.rp_subs);
            assert(st2.rp_handle == st.rp_handle);
        },
    }
}

proof fn lemma_resolve_from_subs_grouped(
    nodes: Seq<DescNode>,
    edges: Seq<(usize, usize)>,
    order: Seq<usize>,
    inh: Seq<Heritage>,
    owner: Seq<Option<usize>>,
    any_acq: bool,
    ctx: CompileContext,
    t: int,
    st: ResolveV,
)
    requires
        nodes.len() <= usize::MAX,
        graph::is_topo_order(nodes.len() as int, edges, order),
        graph::edges_wf(nodes.len() as int, edges),
        inh.len() == nodes.len(),
        owner.len() == nodes.len(),
        forall|u: int| 0 <= u < nodes.len() ==> spec_heritage_kinds(nodes, #[trigger] inh[u]),
        forall|u: int|
            0 <= u < nodes.len() ==> spec_heritage_bounded(#[trigger] inh[u], nodes.len() as int),
        forall|u: int|
            0 <= u < nodes.len() ==> match #[trigger] owner[u] {
                Some(r) => r < nodes.len() && nodes[r as int].kind is RenderPass,
                None => true,
            },
        0 <= t <= order.len(),
        spec_tables_wf(st, nodes.len() as int),
        spec_rp_handle_inv(nodes, order, st, t),
        spec_pl_handle_inv(nodes, order, st, t),
        spec_subs_grouped(st, nodes.len() as int),
        spec_lists_bounded(st, nodes.len() as int),
        spec_resolve_from(nodes, edges, order, inh, owner, any_acq, ctx, t, st) is Ok,
    ensures
        spec_subs_grouped(
            spec_resolve_from(nodes, edges, order, inh, owner, any_acq, ctx, t, st).unwrap(),
            nodes.len() as int,
        ),
    decreases order.len() - t,
{
    if t < order.len() {
        let v = order[t];
        lemma_step_ok_iff_deps(nodes, edges, order, inh, owner, any_acq, ctx, t, st);
        match spec_resolve_step(nodes, edges, inh, owner, any_acq, ctx, v, st) {
            Ok(st2) => {
                lemma_step_subs_grouped(nodes, edges, order, inh, owner, any_acq, ctx, t, st);
                assert(spec_lists_bounded(st2, nodes.len() as int)) by {
                    lemma_step_lists_bounded(nodes, edges, inh, owner, any_acq, ctx, v, st);
                }
                lemma_resolve_from_subs_grouped(
                    nodes,
                    edges,
                    order,
                    inh,
                    owner,
                    any_acq,
                    ctx,
                    t + 1,
                    st2,
                );
            },
            Err(_) => {},
        }
    }
}

/// A successful resolution step keeps the wiring lists inside the node
/// range.
proof fn lemma_step_lists_bounded(
    nodes: Seq<DescNode>,
    edges: Seq<(usize, usize)>,
    inh: Seq<Heritage>,
    owner: Seq<Option<usize>>,
    any_acq: bool,
    ctx: CompileContext,
    v: usize,
    st: ResolveV,
)
    requires
        v < nodes.len(),
        inh.len() == nodes.len(),
        owner.len() == nodes.len(),
        forall|u: int| 0 <= u < nodes.len() ==> spec_heritage_bounded(#[trigger] inh[u], nodes.len() as int),
        forall|u: int|
            0 <= u < nodes.len() ==> match #[trigger] owner[u] {
                Some(r) => r < nodes.len(),
                None => true,
            },
        spec_lists_bounded(st, nodes.len() as int),
        spec_resolve_step(nodes, edges, inh, owner, any_acq, ctx, v, st) is Ok,
    ensures
        spec_lists_bounded(
            spec_resolve_step(nodes, edges, inh, owner, any_acq, ctx, v, st).unwrap(),
            nodes.len() as int,
        ),
{
    match nodes[v as int].kind {
        NodeBuilder::RenderPass => {
            let mem_pairs = spec_collect_members(nodes, owner, v, nodes.len() as int);
            lemma_collect_members_bounded(nodes, owner, v, nodes.len() as int);
            assert forall|x: (u8, usize)| spec_sort_pairs(mem_pairs).contains(x) implies x.1
                < nodes.len() by {
                lemma_sort_pairs_elems(mem_pairs, x);
                let u = choose|u: int| 0 <= u < mem_pairs.len() && mem_pairs[u] == x;
            }
            let st2 = spec_step_render_pass(nodes, edges, owner, v, st);
            assert forall|t3: int|
                0 <= t3 < st2.rp_subs.len() implies (#[trigger] st2.rp_subs[t3]).0
                < nodes.len() && (st2.rp_subs[t3]).1 < nodes.len() by {
                if t3 >= st.rp_subs.len() {
                    let ms = spec_sort_pairs(mem_pairs);
                    assert(st2.rp_subs[t3] == (v, ms[t3 - st.rp_subs.len()].1, ms[t3
                        - st.rp_subs.len()].0));
                    assert(ms.contains(ms[t3 - st.rp_subs.len()]));
                }
            }
        },
        _ => {},
    }
}

proof fn lemma_collect_members_bounded(
    nodes: Seq<DescNode>,
    owner: Seq<Option<usize>>,
    v: usize,
    i: int,
)
    requires
        i <= nodes.len(),
    ensures
        forall|t: int|
            0 <= t < spec_collect_members(nodes, owner, v, i).len() ==> (
            #[trigger] spec_collect_members(nodes, owner, v, i)[t]).1 < nodes.len(),
    decreases i,
{
    if i > 0 {
        lemma_collect_members_bounded(nodes, owner, v, i - 1);
        let p = spec_collect_members(nodes, owner, v, i - 1);
        let c = spec_collect_members(nodes, owner, v, i);
        assert forall|t: int| 0 <= t < c.len() implies (#[trigger] c[t]).1 < nodes.len() by {
            if t < p.len() {
                assert(c[t] == p[t]);
            }
        }
    }
}

/// Markers between two render-pass begins belong to one render pass and
/// appear in ascending subpass-index order.
#[verifier::opaque]
pub open spec fn spec_markers_blockwise(nodes: Seq<RuntimeNodeV>) -> bool {
    forall|i: int, j: int|
        0 <= i < j < nodes.len() && spec_is_marker((#[trigger] nodes[i]).kind) && spec_is_marker(
            (#[trigger] nodes[j]).kind,
        ) && (forall|m: int| i < m < j ==> !((#[trigger] nodes[m]).kind is BeginRenderPass))
            ==> spec_marker_ix(nodes[i].kind) <= spec_marker_ix(nodes[j].kind)
}

/// Appending a block that starts with a render-pass begin before any of
/// its markers, and whose markers are non-decreasing, preserves the
/// blockwise marker order.
#[verifier::spinoff_prover]
proof fn lemma_blockwise_append(prefix: Seq<RuntimeNodeV>, block: Seq<RuntimeNodeV>, b: int)
    requires
        spec_markers_blockwise(prefix),
        0 <= b < block.len(),
        block[b].kind is BeginRenderPass,
        forall|p: int| 0 <= p < b ==> !spec_is_marker((#[trigger] block[p]).kind),
        forall|p: int, q: int|
            0 <= p < q < block.len() && spec_is_marker((#[trigger] block[p]).kind)
                && spec_is_marker((#[trigger] block[q]).kind) ==> spec_marker_ix(block[p].kind)
                <= spec_marker_ix(block[q].kind),
    ensures
        spec_markers_blockwise(prefix + block),
{
    reveal(spec_markers_blockwise);
    let all = prefix + block;
    assert forall|i: int, j: int|
        0 <= i < j < all.len() && spec_is_marker((#[trigger] all[i]).kind) && spec_is_marker(
            (#[trigger] all[j]).kind,
        ) && (forall|m: int| i < m < j ==> !((#[trigger] all[m]).kind is BeginRenderPass))
            implies spec_marker_ix(all[i].kind) <= spec_marker_ix(all[j].kind) by {
        if j < prefix.len() {
            assert(all[i] == prefix[i]);
            assert(all[j] == prefix[j]);
            assert forall|m: int| i < m < j implies !((#[trigger] prefix[m]).kind
                is BeginRenderPass) by {
                assert(prefix[m] == all[m]);
            }
        } else if i < prefix.len() {
            // the block's begin node stands between the two markers
            let m = prefix.len() + b;
            assert(all[m] == block[b]);
            assert(block[j - prefix.len()] == all[j]);
            assert(j - prefix.len() > b);
            assert(i < m < j);
            assert(!(all[m].kind is BeginRenderPass));
            assert(false);
        } else {
            assert(all[i] == block[i - prefix.len()]);
            assert(all[j] == block[j - prefix.len()]);
        }
    }
}

/// Appending marker-free nodes preserves the blockwise marker order.
proof fn lemma_blockwise_append_plain(prefix: Seq<RuntimeNodeV>, block: Seq<RuntimeNodeV>)
    requires
        spec_markers_blockwise(prefix),
        forall|p: int| 0 <= p < block.len() ==> !spec_is_marker((#[trigger] block[p]).kind),
    ensures
        spec_markers_blockwise(prefix + block),
{
    reveal(spec_markers_blockwise);
    let all = prefix + block;
    assert forall|i: int, j: int|
        0 <= i < j < all.len() && spec_is_marker((#[trigger] all[i]).kind) && spec_is_marker(
            (#[trigger] all[j]).kind,
        ) && (forall|m: int| i < m < j ==> !((#[trigger] all[m]).kind is BeginRenderPass))
            implies spec_marker_ix(all[i].kind) <= spec_marker_ix(all[j].kind) by {
        if j < prefix.len() {
            assert(all[i] == prefix[i]);
            assert(all[j] == prefix[j]);
            assert forall|m: int| i < m < j implies !((#[trigger] prefix[m]).kind
                is BeginRenderPass) by {
                assert(prefix[m] == all[m]);
            }
        } else {
            assert(all[j] == block[j - prefix.len()]);
        }
    }
}

proof fn lemma_emit_fbs_shape(
    nodes_desc: Seq<DescNode>,
    fbs: Seq<(usize, usize, u64)>,
    v: usize,
    k: int,
    st: EmitV,
)
    ensures
        ({
            let r = spec_emit_fbs(nodes_desc, fbs, v, k, st);
            &&& st.nodes.len() <= r.nodes.len()
            &&& forall|i: int| 0 <= i < st.nodes.len() ==> r.nodes[i] == st.nodes[i]
            &&& forall|i: int|
                st.nodes.len() <= i < r.nodes.len() ==> (#[trigger] r.nodes[i]).kind
                    is Framebuffer
        }),
    decreases k,
{
    if k > 0 {
        lemma_emit_fbs_shape(nodes_desc, fbs, v, k - 1, st);
    }
}

/// The shape of one emitted render pass block, abstractly: marker-free
/// framebuffer feeds, the pass begin, a subpass range with non-decreasing
/// markers and no pass begin, and the pass end. Appending such a block
/// preserves the blockwise marker order.
#[verifier::spinoff_prover]
proof fn lemma_rp_block_shape(
    st_nodes: Seq<RuntimeNodeV>,
    st_a_nodes: Seq<RuntimeNodeV>,
    st_b_nodes: Seq<RuntimeNodeV>,
    sub_nodes: Seq<RuntimeNodeV>,
    out_nodes: Seq<RuntimeNodeV>,
)
    requires
        spec_markers_blockwise(st_nodes),
        st_nodes.len() <= st_a_nodes.len(),
        forall|i: int| 0 <= i < st_nodes.len() ==> (#[trigger] st_a_nodes[i]) == st_nodes[i],
        forall|i: int|
            st_nodes.len() <= i < st_a_nodes.len() ==> !spec_is_marker(
                (#[trigger] st_a_nodes[i]).kind,
            ) && !((st_a_nodes[i]).kind is BeginRenderPass),
        st_b_nodes.len() == st_a_nodes.len() + 1,
        forall|i: int| 0 <= i < st_a_nodes.len() ==> (#[trigger] st_b_nodes[i]) == st_a_nodes[i],
        st_b_nodes[st_a_nodes.len() as int].kind is BeginRenderPass,
        st_b_nodes.len() <= sub_nodes.len(),
        forall|i: int| 0 <= i < st_b_nodes.len() ==> (#[trigger] sub_nodes[i]) == st_b_nodes[i],
        forall|i: int, j: int|
            st_b_nodes.len() <= i < j < sub_nodes.len() && spec_is_marker(
                (#[trigger] sub_nodes[i]).kind,
            ) && spec_is_marker((#[trigger] sub_nodes[j]).kind) ==> spec_marker_ix(
                sub_nodes[i].kind,
            ) <= spec_marker_ix(sub_nodes[j].kind),
        forall|i: int|
            st_b_nodes.len() <= i < sub_nodes.len() ==> !((#[trigger] sub_nodes[i]).kind
                is BeginRenderPass),
        out_nodes.len() == sub_nodes.len() + 1,
        forall|i: int| 0 <= i < sub_nodes.len() ==> (#[trigger] out_nodes[i]) == sub_nodes[i],
        !spec_is_marker(out_nodes[sub_nodes.len() as int].kind),
        !(out_nodes[sub_nodes.len() as int].kind is BeginRenderPass),
    ensures
        spec_markers_blockwise(out_nodes),
{
    let plen = st_nodes.len() as int;
    let block = out_nodes.subrange(plen, out_nodes.len() as int);
    let b = st_a_nodes.len() - plen;
    assert(out_nodes =~= st_nodes + block);
    assert(block[b] == out_nodes[st_a_nodes.len() as int]);
    assert(block[b].kind is BeginRenderPass);
    assert forall|p: int| 0 <= p < b implies !spec_is_marker((#[trigger] block[p]).kind) by {
        assert(block[p] == out_nodes[plen + p]);
        assert(out_nodes[plen + p] == st_a_nodes[plen + p]);
    }
    assert forall|p: int, q: int|
        0 <= p < q < block.len() && spec_is_marker((#[trigger] block[p]).kind) && spec_is_marker(
            (#[trigger] block[q]).kind,
        ) implies spec_marker_ix(block[p].kind) <= spec_marker_ix(block[q].kind) by {
        assert(block[p] == out_nodes[plen + p]);
        assert(block[q] == out_nodes[plen + q]);
        assert(st_b_nodes.len() <= plen + p < sub_nodes.len()) by {
            if plen + p < st_a_nodes.len() {
                assert(out_nodes[plen + p] == st_a_nodes[plen + p]);
                assert(false);
            } else if plen + p == st_a_nodes.len() {
                assert(out_nodes[plen + p] == st_b_nodes[plen + p]);
                assert(false);
            } else if plen + p >= sub_nodes.len() {
                assert(false);
            }
        }
        assert(st_b_nodes.len() <= plen + q < sub_nodes.len()) by {
            if plen + q < st_a_nodes.len() {
                assert(out_nodes[plen + q] == st_a_nodes[plen + q]);
                assert(false);
            } else if plen + q == st_a_nodes.len() {
                assert(out_nodes[plen + q] == st_b_nodes[plen + q]);
                assert(false);
            } else if plen + q >= sub_nodes.len() {
                assert(false);
            }
        }
        assert(out_nodes[plen + p] == sub_nodes[plen + p]);
        assert(out_nodes[plen + q] == sub_nodes[plen + q]);
    }
    lemma_blockwise_append(st_nodes, block, b);
    assert(st_nodes + block == out_nodes);
}



/// Emitting one render pass only appends nodes.
proof fn lemma_emit_rp_monotone(
    nodes_desc: Seq<DescNode>,
    rst: ResolveV,
    inh: Seq<Heritage>,
    any_acq: bool,
    ctx: CompileContext,
    r: int,
    st: EmitV,
)
    ensures
        spec_emit_rp(nodes_desc, rst, inh, any_acq, ctx, r, st).nodes.len() >= st.nodes.len(),
{
    let v = rst.rp_emit[r];
    lemma_emit_fbs_shape(nodes_desc, rst.fbs, v, rst.fbs.len() as int, st);
    let st_a = spec_emit_fbs(nodes_desc, rst.fbs, v, rst.fbs.len() as int, st);
    let begin_rp = st_a.nodes.len() as usize;
    let st_b = spec_emit_rp_begin(nodes_desc, rst, inh, any_acq, r, st);
    lemma_emit_subs_monotone(
        nodes_desc,
        rst.rp_subs,
        rst.pipes,
        rst.draws,
        ctx,
        v,
        begin_rp,
        rst.rp_subs.len() as int,
        st_b,
        None,
        Seq::empty(),
    );
}

proof fn lemma_emit_subs_monotone(
    nodes_desc: Seq<DescNode>,
    rp_subs: Seq<(usize, usize, u8)>,
    pipes: Seq<(usize, usize, u64)>,
    draws: Seq<(usize, usize)>,
    ctx: CompileContext,
    v: usize,
    begin_rp: usize,
    k: int,
    st: EmitV,
    prev_end: Option<usize>,
    ends: Seq<usize>,
)
    ensures
        spec_emit_subs(
            nodes_desc,
            rp_subs,
            pipes,
            draws,
            ctx,
            v,
            begin_rp,
            k,
            st,
            prev_end,
            ends,
        ).0.nodes.len() >= st.nodes.len(),
    decreases k,
{
    if k > 0 {
        lemma_emit_subs_monotone(
            nodes_desc,
            rp_subs,
            pipes,
            draws,
            ctx,
            v,
            begin_rp,
            k - 1,
            st,
            prev_end,
            ends,
        );
        let r1 = spec_emit_subs(
            nodes_desc,
            rp_subs,
            pipes,
            draws,
            ctx,
            v,
            begin_rp,
            k - 1,
            st,
            prev_end,
            ends,
        );
        if rp_subs[k - 1].0 == v {
            let s = rp_subs[k - 1].1;
            let begin_sp = r1.0.nodes.len() as usize;
            let st2 = EmitV {
                nodes: r1.0.nodes.push(
                    RuntimeNodeV {
                        name: nodes_desc[s as int].name@,
                        kind: NodeRuntime::BeginSubPass(rp_subs[k - 1].2),
                    },
                ),
                edges: (match r1.1 {
                    Some(pe) => r1.0.edges.push((begin_rp, begin_sp)).push((pe, begin_sp)),
                    None => r1.0.edges.push((begin_rp, begin_sp)),
                }),
                ..r1.0
            };
            lemma_emit_pipes_shape(
                nodes_desc,
                pipes,
                draws,
                ctx,
                s,
                begin_sp,
                pipes.len() as int,
                st2,
            );
        }
    }
}

#[verifier::spinoff_prover]
proof fn lemma_emit_presents_blockwise(
    nodes_desc: Seq<DescNode>,
    presents: Seq<(usize, usize)>,
    any_acq: bool,
    k: int,
    st: EmitV,
)
    requires
        spec_markers_blockwise(st.nodes),
    ensures
        ({
            let out = spec_emit_presents(nodes_desc, presents, any_acq, k, st);
            &&& st.nodes.len() <= out.nodes.len()
            &&& forall|i: int| 0 <= i < st.nodes.len() ==> out.nodes[i] == st.nodes[i]
            &&& spec_markers_blockwise(out.nodes)
        }),
    decreases k,
{
    if k > 0 {
        lemma_emit_presents_blockwise(nodes_desc, presents, any_acq, k - 1, st);
        let mid = spec_emit_presents(nodes_desc, presents, any_acq, k - 1, st);
        let out = spec_emit_presents(nodes_desc, presents, any_acq, k, st);
        let d = presents[k - 1].0;
        let fresh = seq![
            RuntimeNodeV { name: nodes_desc[d as int].name@, kind: NodeRuntime::PresentImage },
        ];
        assert(out.nodes =~= mid.nodes + fresh);
        lemma_blockwise_append_plain(mid.nodes, fresh);
        assert(mid.nodes + fresh == out.nodes);
    }
}


proof fn lemma_emit_presents_monotone(
    nodes_desc: Seq<DescNode>,
    presents: Seq<(usize, usize)>,
    any_acq: bool,
    k: int,
    st: EmitV,
)
    ensures
        spec_emit_presents(nodes_desc, presents, any_acq, k, st).nodes.len() >= st.nodes.len(),
    decreases k,
{
    if k > 0 {
        lemma_emit_presents_monotone(nodes_desc, presents, any_acq, k - 1, st);
    }
}

#[verifier::spinoff_prover]
#[verifier::rlimit(30)]
proof fn lemma_emit_rp_blockwise(
    nodes_desc: Seq<DescNode>,
    rst: ResolveV,
    inh: Seq<Heritage>,
    any_acq: bool,
    ctx: CompileContext,
    r: int,
    st: EmitV,
)
    requires
        forall|t1: int, t2: int|
            0 <= t1 < t2 < rst.rp_subs.len() && (#[trigger] rst.rp_subs[t1]).0 == (
            #[trigger] rst.rp_subs[t2]).0 ==> rst.rp_subs[t1].2 <= rst.rp_subs[t2].2,
        spec_emit_rp(nodes_desc, rst, inh, any_acq, ctx, r, st).nodes.len() <= usize::MAX,
        spec_markers_blockwise(st.nodes),
    ensures
        ({
            let out = spec_emit_rp(nodes_desc, rst, inh, any_acq, ctx, r, st);
            &&& st.nodes.len() <= out.nodes.len()
            &&& forall|i: int| 0 <= i < st.nodes.len() ==> out.nodes[i] == st.nodes[i]
            &&& spec_markers_blockwise(out.nodes)
        }),
{
    let v = rst.rp_emit[r];
    let handle = rst.renderpasses[r].handle;
    let st_a = spec_emit_fbs(nodes_desc, rst.fbs, v, rst.fbs.len() as int, st);
    lemma_emit_fbs_shape(nodes_desc, rst.fbs, v, rst.fbs.len() as int, st);
    let begin_rp = st_a.nodes.len() as usize;
    let st_b = spec_emit_rp_begin(nodes_desc, rst, inh, any_acq, r, st);
    let r_c = spec_emit_subs(
        nodes_desc,
        rst.rp_subs,
        rst.pipes,
        rst.draws,
        ctx,
        v,
        begin_rp,
        rst.rp_subs.len() as int,
        st_b,
        None,
        Seq::empty(),
    );
    let out = spec_emit_rp(nodes_desc, rst, inh, any_acq, ctx, r, st);
    assert(out.nodes == r_c.0.nodes.push(
        RuntimeNodeV {
            name: nodes_desc[v as int].name@,
            kind: NodeRuntime::EndRenderPass(handle),
        },
    ));
    lemma_emit_subs_order(
        nodes_desc,
        rst.rp_subs,
        rst.pipes,
        rst.draws,
        ctx,
        v,
        begin_rp,
        rst.rp_subs.len() as int,
        st_b,
        None,
        Seq::empty(),
    );
    lemma_rp_block_shape(st.nodes, st_a.nodes, st_b.nodes, r_c.0.nodes, out.nodes);
    assert(st.nodes.len() <= out.nodes.len());
    assert forall|i: int| 0 <= i < st.nodes.len() implies out.nodes[i] == st.nodes[i] by {
        assert(out.nodes[i] == r_c.0.nodes[i]);
        assert(r_c.0.nodes[i] == st_b.nodes[i]);
        assert(st_b.nodes[i] == st_a.nodes[i]);
        assert(st_a.nodes[i] == st.nodes[i]);
    }
}


#[verifier::spinoff_prover]
proof fn lemma_emit_rps_blockwise(
    nodes_desc: Seq<DescNode>,
    rst: ResolveV,
    inh: Seq<Heritage>,
    any_acq: bool,
    ctx: CompileContext,
    r: int,
    st: EmitV,
)
    requires
        forall|t1: int, t2: int|
            0 <= t1 < t2 < rst.rp_subs.len() && (#[trigger] rst.rp_subs[t1]).0 == (
            #[trigger] rst.rp_subs[t2]).0 ==> rst.rp_subs[t1].2 <= rst.rp_subs[t2].2,
        spec_emit_rps(nodes_desc, rst, inh, any_acq, ctx, r, st).nodes.len() <= usize::MAX,
        spec_markers_blockwise(st.nodes),
    ensures
        ({
            let out = spec_emit_rps(nodes_desc, rst, inh, any_acq, ctx, r, st);
            &&& st.nodes.len() <= out.nodes.len()
            &&& forall|i: int| 0 <= i < st.nodes.len() ==> out.nodes[i] == st.nodes[i]
            &&& spec_markers_blockwise(out.nodes)
        }),
    decreases r,
{
    if r > 0 {
        let mid = spec_emit_rps(nodes_desc, rst, inh, any_acq, ctx, r - 1, st);
        let out = spec_emit_rps(nodes_desc, rst, inh, any_acq, ctx, r, st);
        assert(out == spec_emit_rp(nodes_desc, rst, inh, any_acq, ctx, r - 1, mid));
        lemma_emit_rp_monotone(nodes_desc, rst, inh, any_acq, ctx, r - 1, mid);
        lemma_emit_rps_blockwise(nodes_desc, rst, inh, any_acq, ctx, r - 1, st);
        lemma_emit_rp_blockwise(nodes_desc, rst, inh, any_acq, ctx, r - 1, mid);
    }
}

/// Subpass chaining, over a whole compiled graph: subpass markers with no
/// render-pass begin between them belong to one render pass, and they
/// appear in ascending subpass-index order. In particular, within one
/// render pass the end marker of a lower-index subpass stands strictly
/// before the begin marker of a higher-index one, and the node order is
/// the execution order.
#[verifier::spinoff_prover]
pub proof fn lemma_compile_subpass_order(
    nodes: Seq<DescNode>,
    edges: Seq<(usize, usize)>,
    ctx: CompileContext,
)
    requires
        nodes.len() <= usize::MAX,
        graph::edges_wf(nodes.len() as int, edges),
        spec_compile(nodes, edges, ctx) is Ok,
        spec_compile(nodes, edges, ctx).unwrap().nodes.len() <= usize::MAX,
    ensures
        spec_markers_blockwise(spec_compile(nodes, edges, ctx).unwrap().nodes),
{
    let n = nodes.len() as int;
    let order = graph::spec_toposort(n, edges);
    graph::lemma_toposort_len(n, edges);
    graph::lemma_toposort_complete_acyclic(n, edges);
    let inh = spec_heritage(nodes, edges, order).1;
    let owner = spec_owners(nodes, edges, inh);
    let any_acq = spec_any_acquire(nodes, inh);
    lemma_heritage_bounded(nodes, edges, order);
    lemma_heritage_kinds(nodes, edges, order);
    assert forall|u: int|
        0 <= u < nodes.len() implies match #[trigger] owner[u] {
        Some(r2) => r2 < nodes.len() && nodes[r2 as int].kind is RenderPass,
        None => true,
    } by {
        lemma_owner_kinds(nodes, edges, inh, u);
    }
    let st0 = spec_init_resolve(n);
    assert(spec_rp_handle_inv(nodes, order, st0, 0) && spec_pl_handle_inv(nodes, order, st0, 0))
        by {
        assert forall|x: int|
            0 <= x < nodes.len() implies !((#[trigger] st0.rp_handle[x]) is Some) && !(
            st0.pl_handle[x] is Some) && graph::pos_of(order, x as usize) >= 0 by {
            graph::lemma_pos_of_nonneg(order, x as usize);
        }
    }
    lemma_resolve_from_subs_grouped(nodes, edges, order, inh, owner, any_acq, ctx, 0, st0);
    let rst = spec_resolve(nodes, edges, order, inh, owner, any_acq, ctx).unwrap();
    let est0 = EmitV { nodes: Seq::empty(), edges: Seq::empty(), rp_end: Seq::empty() };
    let est1 = if any_acq {
        EmitV {
            nodes: est0.nodes.push(
                RuntimeNodeV {
                    name: "acquire_present_image"@,
                    kind: NodeRuntime::AcquirePresentImage,
                },
            ),
            ..est0
        }
    } else {
        est0
    };
    assert(spec_markers_blockwise(est1.nodes)) by {
        reveal(spec_markers_blockwise);
    }
    let est2 = spec_emit_rps(nodes, rst, inh, any_acq, ctx, rst.rp_emit.len() as int, est1);
    let em = spec_emit(nodes, rst, inh, any_acq, ctx);
    lemma_emit_presents_monotone(nodes, rst.presents, any_acq, rst.presents.len() as int, est2);
    assert(est2.nodes.len() <= em.nodes.len());
    lemma_emit_rps_blockwise(nodes, rst, inh, any_acq, ctx, rst.rp_emit.len() as int, est1);
    lemma_emit_presents_blockwise(nodes, rst.presents, any_acq, rst.presents.len() as int, est2);
    assert(em.nodes == spec_emit_presents(
        nodes,
        rst.presents,
        any_acq,
        rst.presents.len() as int,
        est2,
    ).nodes);
}

} // verus!
