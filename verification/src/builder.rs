//! Author-time description of a frame: named nodes and directed dependency
//! edges, collected declaratively with no device interaction.
//!
//! Node names are unique within one builder; that is enforced at insertion.
//! Cycles are not rejected here: detecting them is deferred to compilation's
//! topological sort.

use vstd::prelude::*;
use crate::graph;

verus! {

/// What a description node stands for: either a resource to create at
/// compile time or a logical operation to perform every frame.
#[derive(Debug, Clone, PartialEq)]
pub enum NodeBuilder {
    AcquirePresentImage,
    /// A color attachment backed by the swapchain image, with its attachment
    /// index.
    SwapchainAttachment(u8),
    /// A depth attachment, with its attachment index.
    DepthAttachment(u8),
    /// One ordered phase of a render pass, with its subpass index.
    Subpass(u8),
    RenderPass,
    /// Path of the compiled vertex shader binary.
    VertexShader(String),
    /// Path of the compiled fragment shader binary.
    FragmentShader(String),
    Framebuffer,
    /// Binding slot, descriptor type code, shader stage mask, descriptor
    /// count.
    DescriptorBinding(u32, u32, u32, u32),
    /// Number of buffered descriptor-set instances to allocate.
    DescriptorSet(u32),
    PipelineLayout,
    /// Binding number, stride in bytes, input rate code.
    VertexInputBinding(u32, u32, u32),
    /// Binding number, location, format code, offset in bytes.
    VertexInputAttribute(u32, u32, u32, u32),
    GraphicsPipeline,
    /// Identifier of a draw callback registered with the device layer.
    DrawCommands(u32),
    PresentImage,
}

/// A named description node.
#[derive(Debug, Clone, PartialEq)]
pub struct DescNode {
    pub name: String,
    pub kind: NodeBuilder,
}

/// A reference to a node registered with a builder.
#[derive(Debug, Clone, Copy, PartialEq, Eq, Structural)]
pub struct BuilderNode {
    pub ix: usize,
}

/// The dependency kind a compile step found missing.
#[derive(Debug, Clone, Copy, PartialEq, Eq, Structural)]
pub enum DependencyKind {
    RenderPass,
    Subpass,
    PipelineLayout,
    GraphicsPipeline,
    AcquirePresentImage,
}

/// Why building or compiling a description graph failed. These all mean a
/// misconfigured graph: none of them is recoverable at runtime.
#[derive(Debug, Clone, PartialEq)]
pub enum CompileError {
    /// The description graph admits no topological order.
    CycleDetected,
    /// A node was registered under an already used name.
    DuplicateName,
    /// An edge endpoint was never registered.
    UnknownNode,
    /// The named node lacks a dependency of the given kind.
    MissingDependency(String, DependencyKind),
}

/// The author-time description graph: an arena of named nodes and a list of
/// directed edges `(producer, consumer)` between node indices.
pub struct RenderDAGBuilder {
    pub nodes: Vec<DescNode>,
    pub edges: Vec<(usize, usize)>,
}

impl RenderDAGBuilder {
    /// Every edge endpoint is a registered node and no two nodes share a
    /// name.
    pub open spec fn wf(self) -> bool {
        &&& graph::edges_wf(self.nodes@.len() as int, self.edges@)
        &&& forall|i: int, j: int|
            0 <= i < j < self.nodes@.len() ==> (#[trigger] self.nodes@[i]).name@ != (
            #[trigger] self.nodes@[j]).name@
    }

    /// Some registered node already carries this name.
    pub open spec fn spec_has_name(self, name: Seq<char>) -> bool {
        exists|i: int| 0 <= i < self.nodes@.len() && (#[trigger] self.nodes@[i]).name@ == name
    }

    pub fn new() -> (r: RenderDAGBuilder)
        ensures
            r.wf(),
            r.nodes@.len() == 0,
            r.edges@.len() == 0,
    {
        RenderDAGBuilder { nodes: Vec::new(), edges: Vec::new() }
    }

    /// Registers a node under a fresh name. A name used before is refused
    /// and leaves the graph untouched.
    pub fn add_node(&mut self, name: String, kind: NodeBuilder) -> (r: Result<
        BuilderNode,
        CompileError,
    >)
        requires
            old(self).wf(),
        ensures
            final(self).wf(),
            match r {
                Ok(node) => {
                    &&& !old(self).spec_has_name(name@)
                    &&& node.ix == old(self).nodes@.len()
                    &&& final(self).nodes@ == old(self).nodes@.push(
                        DescNode { name: name, kind: kind },
                    )
                    &&& final(self).edges@ == old(self).edges@
                },
                Err(e) => {
                    &&& e == CompileError::DuplicateName
                    &&& old(self).spec_has_name(name@)
                    &&& *final(self) == *old(self)
                },
            },
    {
        let mut dup: bool = false;
        let mut i: usize = 0;
        while i < self.nodes.len()
            invariant
                i <= self.nodes@.len(),
                *self == *old(self),
                dup <==> exists|t: int|
                    0 <= t < i && (#[trigger] self.nodes@[t]).name@ == name@,
            decreases self.nodes@.len() - i,
        {
            if self.nodes[i].name == name {
                dup = true;
            }
            i = i + 1;
        }
        if dup {
            Err(CompileError::DuplicateName)
        } else {
            let ix = self.nodes.len();
            self.nodes.push(DescNode { name, kind });
            assert forall|a: int, b: int|
                0 <= a < b < self.nodes@.len() implies (#[trigger] self.nodes@[a]).name@ != (
                #[trigger] self.nodes@[b]).name@ by {
                if b == self.nodes@.len() - 1 {
                    assert(!old(self).spec_has_name(self.nodes@[b].name@));
                }
            }
            Ok(BuilderNode { ix })
        }
    }

    /// Records the dependency edge `from -> to`: `to` requires `from` to be
    /// resolved first. An unregistered endpoint is refused and leaves the
    /// graph untouched.
    pub fn add_edge(&mut self, from: BuilderNode, to: BuilderNode) -> (r: Result<
        (),
        CompileError,
    >)
        requires
            old(self).wf(),
        ensures
            final(self).wf(),
            match r {
                Ok(()) => {
                    &&& from.ix < old(self).nodes@.len()
                    &&& to.ix < old(self).nodes@.len()
                    &&& final(self).edges@ == old(self).edges@.push((from.ix, to.ix))
                    &&& final(self).nodes@ == old(self).nodes@
                },
                Err(e) => {
                    &&& e == CompileError::UnknownNode
                    &&& !(from.ix < old(self).nodes@.len() && to.ix < old(self).nodes@.len())
                    &&& *final(self) == *old(self)
                },
            },
    {
        if from.ix < self.nodes.len() && to.ix < self.nodes.len() {
            self.edges.push((from.ix, to.ix));
            Ok(())
        } else {
            Err(CompileError::UnknownNode)
        }
    }
}

} // verus!
