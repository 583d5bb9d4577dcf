//! Debug-only text export of a compiled runtime graph as a node and edge
//! diagram: each node labeled with its name and action, each edge
//! unlabeled. Purely diagnostic; nothing reads it back.

use vstd::prelude::*;
use vstd::string::StringExecFns;
use crate::runtime::{RenderDAG, RenderDAGV, NodeRuntime};

verus! {

pub open spec fn spec_digit(d: int) -> Seq<char> {
    if d == 0 {
        "0"@
    } else if d == 1 {
        "1"@
    } else if d == 2 {
        "2"@
    } else if d == 3 {
        "3"@
    } else if d == 4 {
        "4"@
    } else if d == 5 {
        "5"@
    } else if d == 6 {
        "6"@
    } else if d == 7 {
        "7"@
    } else if d == 8 {
        "8"@
    } else {
        "9"@
    }
}

/// The decimal digits of `n`, most significant first.
pub open spec fn spec_decimal(n: int) -> Seq<char>
    decreases n,
{
    if n < 10 {
        spec_digit(n)
    } else {
        spec_decimal(n / 10) + spec_digit(n % 10)
    }
}

fn digit_str(d: u64) -> (r: &'static str)
    requires
        d < 10,
    ensures
        r@ == spec_digit(d as int),
{
    if d == 0 {
        "0"
    } else if d == 1 {
        "1"
    } else if d == 2 {
        "2"
    } else if d == 3 {
        "3"
    } else if d == 4 {
        "4"
    } else if d == 5 {
        "5"
    } else if d == 6 {
        "6"
    } else if d == 7 {
        "7"
    } else if d == 8 {
        "8"
    } else {
        "9"
    }
}

/// Renders `n` in decimal.
pub fn decimal(n: u64) -> (r: String)
    ensures
        r@ == spec_decimal(n as int),
    decreases n,
{
    if n < 10 {
        digit_str(n).to_owned()
    } else {
        let mut s = decimal(n / 10);
        s.append(digit_str(n % 10));
        s
    }
}

pub open spec fn spec_kind_label(k: NodeRuntime) -> Seq<char> {
    match k {
        NodeRuntime::AcquirePresentImage => "acquire_present_image"@,
        NodeRuntime::BeginRenderPass(_) => "begin_render_pass"@,
        NodeRuntime::BeginSubPass(_) => "begin_subpass"@,
        NodeRuntime::BindPipeline(_, _, _) => "bind_pipeline"@,
        NodeRuntime::DrawCommands(_) => "draw_commands"@,
        NodeRuntime::EndSubPass(_) => "end_subpass"@,
        NodeRuntime::EndRenderPass(_) => "end_render_pass"@,
        NodeRuntime::Framebuffer(_) => "framebuffer"@,
        NodeRuntime::PresentImage => "present_image"@,
    }
}

fn kind_label(k: &NodeRuntime) -> (r: &'static str)
    ensures
        r@ == spec_kind_label(*k),
{
    match k {
        NodeRuntime::AcquirePresentImage => "acquire_present_image",
        NodeRuntime::BeginRenderPass(_) => "begin_render_pass",
        NodeRuntime::BeginSubPass(_) => "begin_subpass",
        NodeRuntime::BindPipeline(_, _, _) => "bind_pipeline",
        NodeRuntime::DrawCommands(_) => "draw_commands",
        NodeRuntime::EndSubPass(_) => "end_subpass",
        NodeRuntime::EndRenderPass(_) => "end_render_pass",
        NodeRuntime::Framebuffer(_) => "framebuffer",
        NodeRuntime::PresentImage => "present_image",
    }
}

pub open spec fn spec_node_line(dag: RenderDAGV, i: int) -> Seq<char> {
    "  "@ + spec_decimal(i) + " [label=\""@ + dag.nodes[i].name + " "@ + spec_kind_label(
        dag.nodes[i].kind,
    ) + "\"]\n"@
}

pub open spec fn spec_node_lines(dag: RenderDAGV, i: int) -> Seq<char>
    decreases i,
{
    if i <= 0 {
        Seq::empty()
    } else {
        spec_node_lines(dag, i - 1) + spec_node_line(dag, i - 1)
    }
}

pub open spec fn spec_edge_line(dag: RenderDAGV, k: int) -> Seq<char> {
    "  "@ + spec_decimal(dag.edges[k].0 as int) + " -> "@ + spec_decimal(dag.edges[k].1 as int)
        + "\n"@
}

pub open spec fn spec_edge_lines(dag: RenderDAGV, k: int) -> Seq<char>
    decreases k,
{
    if k <= 0 {
        Seq::empty()
    } else {
        spec_edge_lines(dag, k - 1) + spec_edge_line(dag, k - 1)
    }
}

/// The full diagram: a header, one line per node, one per edge, a footer.
pub open spec fn spec_dot(dag: RenderDAGV) -> Seq<char> {
    "digraph {\n"@ + spec_node_lines(dag, dag.nodes.len() as int) + spec_edge_lines(
        dag,
        dag.edges.len() as int,
    ) + "}\n"@
}

/// Renders the runtime graph as a node and edge text diagram.
#[verifier::loop_isolation(false)]
pub fn dot(g: &RenderDAG) -> (r: String)
    ensures
        r@ == spec_dot(g@),
{
    let mut s = "digraph {\n".to_owned();
    let mut i: usize = 0;
    while i < g.nodes.len()
        invariant
            i <= g@.nodes.len(),
            s@ == "digraph {\n"@ + spec_node_lines(g@, i as int),
        decreases g@.nodes.len() - i,
    {
        s.append("  ");
        s.append(decimal(i as u64).as_str());
        s.append(" [label=\"");
        s.append(g.nodes[i].name.as_str());
        s.append(" ");
        s.append(kind_label(&g.nodes[i].kind));
        s.append("\"]\n");
        proof {
            assert(s@ =~= "digraph {\n"@ + spec_node_lines(g@, i as int + 1));
        }
        i = i + 1;
    }
    let ghost nodes_done = s@;
    let mut k: usize = 0;
    while k < g.edges.len()
        invariant
            k <= g@.edges.len(),
            s@ == nodes_done + spec_edge_lines(g@, k as int),
        decreases g@.edges.len() - k,
    {
        let e = g.edges[k];
        s.append("  ");
        s.append(decimal(e.0 as u64).as_str());
        s.append(" -> ");
        s.append(decimal(e.1 as u64).as_str());
        s.append("\n");
        proof {
            assert(s@ =~= nodes_done + spec_edge_lines(g@, k as int + 1));
        }
        k = k + 1;
    }
    s.append("}\n");
    proof {
        assert(s@ =~= spec_dot(g@));
    }
    s
}

} // verus!
