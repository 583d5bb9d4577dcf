//! The compiled, per-frame side of the render graph: runtime nodes, the
//! command stream the execution engine emits, and the engine itself.

use vstd::prelude::*;
use crate::graph;
use crate::compile::ResourceRegistry;
use crate::compile::RegistryV;

verus! {

/// An axis-aligned region of the surface, in pixels.
#[derive(Debug, Clone, Copy, PartialEq, Eq, Structural)]
pub struct Rect2D {
    pub x: i32,
    pub y: i32,
    pub width: u32,
    pub height: u32,
}

/// The viewport transform to apply, in pixels.
#[derive(Debug, Clone, Copy, PartialEq, Eq, Structural)]
pub struct Viewport {
    pub x: i32,
    pub y: i32,
    pub width: u32,
    pub height: u32,
}

/// The per-frame action one runtime node performs. Handles refer to entries
/// of the compiled [`ResourceRegistry`].
#[derive(Debug, Clone, Copy, PartialEq)]
pub enum NodeRuntime {
    /// Ask the swapchain for the next image index; the result is resolved
    /// once per frame and shared by every consumer.
    AcquirePresentImage,
    /// Begin recording the render pass with this handle.
    BeginRenderPass(u64),
    /// Enter the subpass with this index.
    BeginSubPass(u8),
    /// Bind the pipeline with this handle, then set the dynamic scissor and
    /// viewport state if declared.
    BindPipeline(u64, Option<Rect2D>, Option<Viewport>),
    /// Invoke the draw callback registered under this identifier.
    DrawCommands(u32),
    /// Leave the subpass with this index.
    EndSubPass(u8),
    /// End recording the render pass with this handle.
    EndRenderPass(u64),
    /// The framebuffer set feeding a render pass, by registry handle.
    Framebuffer(u64),
    /// Present the acquired image.
    PresentImage,
}

/// A labeled runtime node: the name of the description node it came from,
/// and its action.
#[derive(Debug, Clone, PartialEq)]
pub struct RuntimeNode {
    pub name: String,
    pub kind: NodeRuntime,
}

/// Ghost image of a [`RuntimeNode`].
#[verifier::ext_equal]
pub struct RuntimeNodeV {
    pub name: Seq<char>,
    pub kind: NodeRuntime,
}

impl View for RuntimeNode {
    type V = RuntimeNodeV;

    open spec fn view(&self) -> RuntimeNodeV {
        RuntimeNodeV { name: self.name@, kind: self.kind }
    }
}

/// The compiled runtime graph: nodes in execution order, happens-before
/// edges for command recording, and the registry of created objects.
///
/// The node order is itself the cached deterministic topological order that
/// the execution engine walks: every edge points from a lower index to a
/// higher one.
#[derive(Debug, Clone, PartialEq)]
pub struct RenderDAG {
    pub nodes: Vec<RuntimeNode>,
    pub edges: Vec<(usize, usize)>,
    pub registry: ResourceRegistry,
}

/// Ghost image of a [`RenderDAG`].
#[verifier::ext_equal]
pub struct RenderDAGV {
    pub nodes: Seq<RuntimeNodeV>,
    pub edges: Seq<(usize, usize)>,
    pub registry: RegistryV,
}

impl View for RenderDAG {
    type V = RenderDAGV;

    open spec fn view(&self) -> RenderDAGV {
        RenderDAGV {
            nodes: Seq::new(self.nodes@.len(), |i: int| self.nodes@[i]@),
            edges: self.edges@,
            registry: self.registry@,
        }
    }
}

impl RenderDAGV {
    /// Edges stay in range and always point forward in the node order, so
    /// the node order is a topological order and the graph is acyclic.
    pub open spec fn wf(self) -> bool {
        forall|k: int|
            0 <= k < self.edges.len() ==> (#[trigger] self.edges[k]).0 < (self.edges[k]).1
                && (self.edges[k]).1 < self.nodes.len()
    }
}

impl RenderDAG {
    /// The edge order of the runtime graph certifies its own acyclicity.
    pub proof fn lemma_wf_acyclic(self)
        requires
            self@.wf(),
        ensures
            graph::acyclic(self@.nodes.len() as int, self@.edges),
    {
        let n = self@.nodes.len() as int;
        let r = Seq::new(n as nat, |i: int| i);
        assert(graph::rank_ok(n, self@.edges, r));
    }
}

/// One recorded or submitted step of a frame, in the order the engine
/// walks the runtime graph.
#[derive(Debug, Clone, Copy, PartialEq)]
pub enum Command {
    /// Ask the swapchain for the next image, signalling the acquire
    /// semaphore.
    AcquireImage,
    /// Begin the render pass, against the framebuffer of the acquired
    /// image when a framebuffer set feeds the pass.
    BeginRenderPass { pass: u64, framebuffer: Option<u64>, image_index: u32 },
    /// Advance to the subpass with this index.
    NextSubpass(u8),
    /// Bind the pipeline and set its dynamic state.
    BindPipeline { pipeline: u64, scissor: Option<Rect2D>, viewport: Option<Viewport> },
    /// Invoke the draw callback registered under this identifier.
    Draw(u32),
    /// End the render pass.
    EndRenderPass(u64),
    /// Present the acquired image.
    Present { image_index: u32 },
}

/// The framebuffer set feeding runtime node `v`, if one does: the first
/// framebuffer node among its inputs, in edge order.
pub open spec fn spec_fb_input(dag: RenderDAGV, v: int, k: int) -> Option<u64>
    decreases k,
{
    if k <= 0 {
        None
    } else {
        match spec_fb_input(dag, v, k - 1) {
            Some(h) => Some(h),
            None => if dag.edges[k - 1].1 == v && dag.nodes[dag.edges[k - 1].0 as int].kind
                is Framebuffer {
                match dag.nodes[dag.edges[k - 1].0 as int].kind {
                    NodeRuntime::Framebuffer(h) => Some(h),
                    _ => None,
                }
            } else {
                None
            },
        }
    }
}

/// Whether a prior subpass's end feeds this node: only then does entering
/// the subpass record an advance, since a render pass begins inside its
/// first subpass.
pub open spec fn spec_has_end_sub_input(dag: RenderDAGV, v: int) -> bool {
    exists|k: int|
        0 <= k < dag.edges.len() && (#[trigger] dag.edges[k]).1 == v && dag.nodes[dag.edges[k].0
            as int].kind is EndSubPass
}

/// What one runtime node contributes to the frame's command stream.
pub open spec fn spec_node_commands(dag: RenderDAGV, v: int, image_index: u32) -> Seq<Command> {
    match dag.nodes[v].kind {
        NodeRuntime::AcquirePresentImage => seq![Command::AcquireImage],
        NodeRuntime::BeginRenderPass(h) => seq![
            Command::BeginRenderPass {
                pass: h,
                framebuffer: spec_fb_input(dag, v, dag.edges.len() as int),
                image_index,
            },
        ],
        NodeRuntime::BeginSubPass(ix) => if spec_has_end_sub_input(dag, v) {
            seq![Command::NextSubpass(ix)]
        } else {
            Seq::empty()
        },
        NodeRuntime::BindPipeline(h, sc, vp) => seq![
            Command::BindPipeline { pipeline: h, scissor: sc, viewport: vp },
        ],
        NodeRuntime::DrawCommands(cb) => seq![Command::Draw(cb)],
        NodeRuntime::EndSubPass(_) => Seq::empty(),
        NodeRuntime::EndRenderPass(h) => seq![Command::EndRenderPass(h)],
        NodeRuntime::Framebuffer(_) => Seq::empty(),
        NodeRuntime::PresentImage => seq![Command::Present { image_index }],
    }
}

pub open spec fn spec_run_upto(dag: RenderDAGV, image_index: u32, v: int) -> Seq<Command>
    decreases v,
{
    if v <= 0 {
        Seq::empty()
    } else {
        spec_run_upto(dag, image_index, v - 1) + spec_node_commands(dag, v - 1, image_index)
    }
}

/// The command stream of one frame: each node's commands in the runtime
/// graph's execution order, with the acquired image index resolved once
/// and shared by the render pass begin and the present.
pub open spec fn spec_run(dag: RenderDAGV, image_index: u32) -> Seq<Command> {
    spec_run_upto(dag, image_index, dag.nodes.len() as int)
}

impl RenderDAG {
    /// Walks the runtime graph in its cached topological order and emits
    /// the frame's command stream. `image_index` is the index the swapchain
    /// acquire resolved to this frame; every consumer observes the same
    /// value.
    ///
    /// A render pass with no framebuffer set among its inputs begins with
    /// `framebuffer: None`, leaving the target to the device layer. This
    /// fallback is deliberate: per-frame execution is total and never
    /// aborts over an undeclared framebuffer, in keeping with the typed
    /// error policy — a graph that declares one always has the feed wired
    /// by compilation.
    #[verifier::loop_isolation(false)]
    pub fn run(&self, image_index: u32) -> (r: Vec<Command>)
        requires
            self@.wf(),
        ensures
            r@ == spec_run(self@, image_index),
    {
        let mut cmds: Vec<Command> = Vec::new();
        let mut v: usize = 0;
        while v < self.nodes.len()
            invariant
                v <= self@.nodes.len(),
                cmds@ == spec_run_upto(self@, image_index, v as int),
            decreases self@.nodes.len() - v,
        {
            match &self.nodes[v].kind {
                NodeRuntime::AcquirePresentImage => {
                    cmds.push(Command::AcquireImage);
                },
                NodeRuntime::BeginRenderPass(h) => {
                    let mut fb: Option<u64> = None;
                    let mut k: usize = 0;
                    while k < self.edges.len()
                        invariant
                            k <= self@.edges.len(),
                            fb == spec_fb_input(self@, v as int, k as int),
                        decreases self@.edges.len() - k,
                    {
                        if fb.is_none() {
                            let e = self.edges[k];
                            if e.1 == v {
                                match &self.nodes[e.0].kind {
                                    NodeRuntime::Framebuffer(fh) => {
                                        fb = Some(*fh);
                                    },
                                    _ => {},
                                }
                            }
                        }
                        k = k + 1;
                    }
                    cmds.push(
                        Command::BeginRenderPass { pass: *h, framebuffer: fb, image_index },
                    );
                },
                NodeRuntime::BeginSubPass(ix) => {
                    let mut after_end: bool = false;
                    let mut k: usize = 0;
                    while k < self.edges.len()
                        invariant
                            k <= self@.edges.len(),
                            after_end <==> exists|kk: int|
                                0 <= kk < k && (#[trigger] self@.edges[kk]).1 == v as int
                                    && self@.nodes[self@.edges[kk].0 as int].kind is EndSubPass,
                        decreases self@.edges.len() - k,
                    {
                        let e = self.edges[k];
                        if e.1 == v {
                            match &self.nodes[e.0].kind {
                                NodeRuntime::EndSubPass(_) => {
                                    after_end = true;
                                },
                                _ => {},
                            }
                        }
                        k = k + 1;
                    }
                    if after_end {
                        cmds.push(Command::NextSubpass(*ix));
                    }
                },
                NodeRuntime::BindPipeline(h, sc, vp) => {
                    cmds.push(
                        Command::BindPipeline { pipeline: *h, scissor: *sc, viewport: *vp },
                    );
                },
                NodeRuntime::DrawCommands(cb) => {
                    cmds.push(Command::Draw(*cb));
                },
                NodeRuntime::EndSubPass(_) => {},
                NodeRuntime::EndRenderPass(h) => {
                    cmds.push(Command::EndRenderPass(*h));
                },
                NodeRuntime::Framebuffer(_) => {},
                NodeRuntime::PresentImage => {
                    cmds.push(Command::Present { image_index });
                },
            }
            proof {
                assert(cmds@ =~= spec_run_upto(self@, image_index, v as int)
                    + spec_node_commands(self@, v as int, image_index));
            }
            v = v + 1;
        }
        cmds
    }
}

} // verus!
