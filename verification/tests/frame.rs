use render_graph::builder::{NodeBuilder, RenderDAGBuilder};
use render_graph::compile::CompileContext;
use render_graph::dot::dot;
use render_graph::runtime::{Command, NodeRuntime, Rect2D, Viewport};

fn ctx() -> CompileContext {
    CompileContext { swapchain_image_count: 2, surface_width: 640, surface_height: 480 }
}

#[test]
fn one_frame_runs_the_full_pipeline_in_order() {
    let mut b = RenderDAGBuilder::new();
    let acq = b
        .add_node("acquire".to_string(), NodeBuilder::AcquirePresentImage)
        .unwrap();
    let att = b
        .add_node("color".to_string(), NodeBuilder::SwapchainAttachment(0))
        .unwrap();
    let rp = b.add_node("main_pass".to_string(), NodeBuilder::RenderPass).unwrap();
    let sp = b.add_node("main_subpass".to_string(), NodeBuilder::Subpass(0)).unwrap();
    let layout = b
        .add_node("layout".to_string(), NodeBuilder::PipelineLayout)
        .unwrap();
    let pipe = b
        .add_node("pipeline".to_string(), NodeBuilder::GraphicsPipeline)
        .unwrap();
    let draw = b.add_node("draw".to_string(), NodeBuilder::DrawCommands(42)).unwrap();
    let present = b.add_node("present".to_string(), NodeBuilder::PresentImage).unwrap();
    b.add_edge(acq, att).unwrap();
    b.add_edge(att, rp).unwrap();
    b.add_edge(rp, sp).unwrap();
    b.add_edge(layout, pipe).unwrap();
    b.add_edge(sp, pipe).unwrap();
    b.add_edge(pipe, draw).unwrap();
    b.add_edge(draw, present).unwrap();
    let dag = b.build(&ctx()).unwrap();
    let pass_handle = dag.registry.renderpasses[0].handle;
    let pipe_handle = dag.registry.pipelines[0].handle;
    let cmds = dag.run(0);
    assert_eq!(
        cmds,
        vec![
            Command::AcquireImage,
            Command::BeginRenderPass { pass: pass_handle, framebuffer: None, image_index: 0 },
            Command::BindPipeline {
                pipeline: pipe_handle,
                scissor: Some(Rect2D { x: 0, y: 0, width: 640, height: 480 }),
                viewport: Some(Viewport { x: 0, y: 0, width: 640, height: 480 }),
            },
            Command::Draw(42),
            Command::EndRenderPass(pass_handle),
            Command::Present { image_index: 0 },
        ]
    );
}

#[test]
fn second_subpass_advances_with_next_subpass() {
    let mut b = RenderDAGBuilder::new();
    let sa = b.add_node("sub_a".to_string(), NodeBuilder::Subpass(0)).unwrap();
    let sb = b.add_node("sub_b".to_string(), NodeBuilder::Subpass(1)).unwrap();
    let rp = b.add_node("pass".to_string(), NodeBuilder::RenderPass).unwrap();
    b.add_edge(sa, rp).unwrap();
    b.add_edge(sb, rp).unwrap();
    b.add_edge(sa, sb).unwrap();
    let dag = b.build(&ctx()).unwrap();
    let pass_handle = dag.registry.renderpasses[0].handle;
    let cmds = dag.run(1);
    assert_eq!(
        cmds,
        vec![
            Command::BeginRenderPass { pass: pass_handle, framebuffer: None, image_index: 1 },
            Command::NextSubpass(1),
            Command::EndRenderPass(pass_handle),
        ]
    );
}

#[test]
fn framebuffer_feeds_the_render_pass_begin() {
    let mut b = RenderDAGBuilder::new();
    let rp = b.add_node("pass".to_string(), NodeBuilder::RenderPass).unwrap();
    let fb = b.add_node("fb".to_string(), NodeBuilder::Framebuffer).unwrap();
    b.add_edge(rp, fb).unwrap();
    let dag = b.build(&ctx()).unwrap();
    let pass_handle = dag.registry.renderpasses[0].handle;
    let fb_handle = dag.registry.framebuffers[0].handle;
    let fb_node = dag
        .nodes
        .iter()
        .position(|n| n.kind == NodeRuntime::Framebuffer(fb_handle))
        .unwrap();
    let begin_node = dag
        .nodes
        .iter()
        .position(|n| n.kind == NodeRuntime::BeginRenderPass(pass_handle))
        .unwrap();
    assert!(fb_node < begin_node);
    assert!(dag.edges.contains(&(fb_node, begin_node)));
    let cmds = dag.run(1);
    assert_eq!(
        cmds,
        vec![
            Command::BeginRenderPass {
                pass: pass_handle,
                framebuffer: Some(fb_handle),
                image_index: 1,
            },
            Command::EndRenderPass(pass_handle),
        ]
    );
}

#[test]
fn runtime_edges_always_point_forward() {
    let mut b = RenderDAGBuilder::new();
    let acq = b
        .add_node("acquire".to_string(), NodeBuilder::AcquirePresentImage)
        .unwrap();
    let rp = b.add_node("pass".to_string(), NodeBuilder::RenderPass).unwrap();
    let sp = b.add_node("sub".to_string(), NodeBuilder::Subpass(0)).unwrap();
    let present = b.add_node("present".to_string(), NodeBuilder::PresentImage).unwrap();
    b.add_edge(acq, rp).unwrap();
    b.add_edge(rp, sp).unwrap();
    b.add_edge(rp, present).unwrap();
    let dag = b.build(&ctx()).unwrap();
    for (a, z) in &dag.edges {
        assert!(a < z);
        assert!(*z < dag.nodes.len());
    }
}

#[test]
fn dot_renders_nodes_and_edges() {
    let mut b = RenderDAGBuilder::new();
    let rp = b.add_node("pass".to_string(), NodeBuilder::RenderPass).unwrap();
    let sp = b.add_node("sub".to_string(), NodeBuilder::Subpass(0)).unwrap();
    b.add_edge(rp, sp).unwrap();
    let dag = b.build(&ctx()).unwrap();
    let text = dot(&dag);
    assert_eq!(
        text,
        "digraph {\n  0 [label=\"pass begin_render_pass\"]\n  1 [label=\"sub begin_subpass\"]\n  2 [label=\"sub end_subpass\"]\n  3 [label=\"pass end_render_pass\"]\n  0 -> 1\n  1 -> 2\n  0 -> 3\n  2 -> 3\n}\n"
    );
}

#[test]
fn decimal_renders_digits() {
    assert_eq!(render_graph::dot::decimal(0), "0");
    assert_eq!(render_graph::dot::decimal(7), "7");
    assert_eq!(render_graph::dot::decimal(1234), "1234");
    assert_eq!(render_graph::dot::decimal(18446744073709551615), "18446744073709551615");
}
