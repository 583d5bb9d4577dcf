use render_graph::builder::{CompileError, DependencyKind, NodeBuilder, RenderDAGBuilder};
use render_graph::compile::{AttachmentClass, CompileContext, EXTERNAL_SUBPASS};
use render_graph::runtime::NodeRuntime;

fn ctx() -> CompileContext {
    CompileContext { swapchain_image_count: 3, surface_width: 1920, surface_height: 1080 }
}

#[test]
fn cycle_is_rejected() {
    let mut b = RenderDAGBuilder::new();
    let x = b.add_node("a".to_string(), NodeBuilder::Subpass(0)).unwrap();
    let y = b.add_node("b".to_string(), NodeBuilder::Subpass(1)).unwrap();
    b.add_edge(x, y).unwrap();
    b.add_edge(y, x).unwrap();
    let r = b.build(&ctx());
    assert_eq!(r, Err(CompileError::CycleDetected));
}

#[test]
fn self_loop_is_rejected() {
    let mut b = RenderDAGBuilder::new();
    let x = b.add_node("a".to_string(), NodeBuilder::RenderPass).unwrap();
    b.add_edge(x, x).unwrap();
    assert_eq!(b.build(&ctx()), Err(CompileError::CycleDetected));
}

#[test]
fn repeated_compiles_are_identical() {
    let build_once = || {
        let mut b = RenderDAGBuilder::new();
        let acq = b
            .add_node("acquire".to_string(), NodeBuilder::AcquirePresentImage)
            .unwrap();
        let att = b
            .add_node("color".to_string(), NodeBuilder::SwapchainAttachment(0))
            .unwrap();
        let rp = b.add_node("main_pass".to_string(), NodeBuilder::RenderPass).unwrap();
        let sp = b.add_node("main_subpass".to_string(), NodeBuilder::Subpass(0)).unwrap();
        b.add_edge(acq, att).unwrap();
        b.add_edge(att, rp).unwrap();
        b.add_edge(rp, sp).unwrap();
        b.build(&ctx()).unwrap()
    };
    let d1 = build_once();
    let d2 = build_once();
    assert_eq!(d1, d2);
}

#[test]
fn attachments_sort_by_index_regardless_of_declaration_order() {
    let mut b = RenderDAGBuilder::new();
    let a2 = b.add_node("att2".to_string(), NodeBuilder::SwapchainAttachment(2)).unwrap();
    let a0 = b.add_node("att0".to_string(), NodeBuilder::SwapchainAttachment(0)).unwrap();
    let a1 = b.add_node("att1".to_string(), NodeBuilder::DepthAttachment(1)).unwrap();
    let rp = b.add_node("pass".to_string(), NodeBuilder::RenderPass).unwrap();
    b.add_edge(a2, rp).unwrap();
    b.add_edge(a0, rp).unwrap();
    b.add_edge(a1, rp).unwrap();
    let dag = b.build(&ctx()).unwrap();
    assert_eq!(dag.registry.renderpasses.len(), 1);
    let entry = &dag.registry.renderpasses[0];
    let indices: Vec<u8> = entry.attachments.iter().map(|a| a.index).collect();
    assert_eq!(indices, vec![0, 1, 2]);
    assert_eq!(entry.attachments[0].class, AttachmentClass::Color);
    assert_eq!(entry.attachments[1].class, AttachmentClass::Depth);
    assert_eq!(entry.attachments[2].class, AttachmentClass::Color);
}

#[test]
fn subpass_chain_orders_end_before_next_begin() {
    let mut b = RenderDAGBuilder::new();
    let sa = b.add_node("sub_a".to_string(), NodeBuilder::Subpass(0)).unwrap();
    let sb = b.add_node("sub_b".to_string(), NodeBuilder::Subpass(1)).unwrap();
    let rp = b.add_node("pass".to_string(), NodeBuilder::RenderPass).unwrap();
    b.add_edge(sa, rp).unwrap();
    b.add_edge(sb, rp).unwrap();
    b.add_edge(sa, sb).unwrap();
    let dag = b.build(&ctx()).unwrap();
    let end_a = dag
        .nodes
        .iter()
        .position(|n| n.kind == NodeRuntime::EndSubPass(0))
        .unwrap();
    let begin_b = dag
        .nodes
        .iter()
        .position(|n| n.kind == NodeRuntime::BeginSubPass(1))
        .unwrap();
    assert!(end_a < begin_b);
    let entry = &dag.registry.renderpasses[0];
    assert_eq!(entry.subpass_indices, vec![0, 1]);
    assert_eq!(entry.dependencies.len(), 2);
    assert_eq!(entry.dependencies[0].src, EXTERNAL_SUBPASS);
    assert_eq!(entry.dependencies[0].dst, 0);
    assert_eq!(entry.dependencies[1].src, 0);
    assert_eq!(entry.dependencies[1].dst, 1);
}

#[test]
fn descriptor_multiplicity_allocates_exact_instances() {
    let mut b = RenderDAGBuilder::new();
    let b1 = b
        .add_node("ubo".to_string(), NodeBuilder::DescriptorBinding(0, 6, 1, 2))
        .unwrap();
    let b2 = b
        .add_node("tex".to_string(), NodeBuilder::DescriptorBinding(1, 1, 16, 5))
        .unwrap();
    let ds = b.add_node("set".to_string(), NodeBuilder::DescriptorSet(3)).unwrap();
    b.add_edge(b1, ds).unwrap();
    b.add_edge(b2, ds).unwrap();
    let dag = b.build(&ctx()).unwrap();
    assert_eq!(dag.registry.descriptor_sets.len(), 1);
    let entry = &dag.registry.descriptor_sets[0];
    assert_eq!(entry.multiplicity, 3);
    assert_eq!(entry.set_handles.len(), 3);
    assert_eq!(entry.bindings.len(), 2);
    assert_eq!(entry.bindings[0].count, 2);
    assert_eq!(entry.bindings[1].count, 5);
    assert_eq!(entry.pool_capacity, 21);
    let name = "set".to_string();
    let found = dag.registry.descriptor_set(&name).unwrap();
    assert_eq!(found.layout_handle, entry.layout_handle);
}

#[test]
fn pipeline_without_subpass_is_missing_dependency() {
    let mut b = RenderDAGBuilder::new();
    b.add_node("pipe".to_string(), NodeBuilder::GraphicsPipeline).unwrap();
    assert_eq!(
        b.build(&ctx()),
        Err(CompileError::MissingDependency(
            "pipe".to_string(),
            DependencyKind::Subpass
        ))
    );
}

#[test]
fn pipeline_with_unowned_subpass_is_missing_render_pass() {
    let mut b = RenderDAGBuilder::new();
    let sp = b.add_node("sub".to_string(), NodeBuilder::Subpass(0)).unwrap();
    let p = b.add_node("pipe".to_string(), NodeBuilder::GraphicsPipeline).unwrap();
    b.add_edge(sp, p).unwrap();
    assert_eq!(
        b.build(&ctx()),
        Err(CompileError::MissingDependency(
            "pipe".to_string(),
            DependencyKind::RenderPass
        ))
    );
}

#[test]
fn pipeline_without_layout_is_missing_dependency() {
    let mut b = RenderDAGBuilder::new();
    let sp = b.add_node("sub".to_string(), NodeBuilder::Subpass(0)).unwrap();
    let rp = b.add_node("pass".to_string(), NodeBuilder::RenderPass).unwrap();
    let p = b.add_node("pipe".to_string(), NodeBuilder::GraphicsPipeline).unwrap();
    b.add_edge(sp, rp).unwrap();
    b.add_edge(sp, p).unwrap();
    assert_eq!(
        b.build(&ctx()),
        Err(CompileError::MissingDependency(
            "pipe".to_string(),
            DependencyKind::PipelineLayout
        ))
    );
}

#[test]
fn pipeline_with_layout_records_its_handle() {
    let mut b = RenderDAGBuilder::new();
    let sp = b.add_node("sub".to_string(), NodeBuilder::Subpass(0)).unwrap();
    let rp = b.add_node("pass".to_string(), NodeBuilder::RenderPass).unwrap();
    let pl = b.add_node("layout".to_string(), NodeBuilder::PipelineLayout).unwrap();
    let p = b.add_node("pipe".to_string(), NodeBuilder::GraphicsPipeline).unwrap();
    b.add_edge(sp, rp).unwrap();
    b.add_edge(sp, p).unwrap();
    b.add_edge(pl, p).unwrap();
    let dag = b.build(&ctx()).unwrap();
    let pl_entry = &dag.registry.pipeline_layouts[0];
    let pipe_entry = &dag.registry.pipelines[0];
    assert_eq!(pipe_entry.layout, pl_entry.handle);
}

#[test]
fn draw_without_pipeline_is_missing_dependency() {
    let mut b = RenderDAGBuilder::new();
    b.add_node("draw".to_string(), NodeBuilder::DrawCommands(9)).unwrap();
    assert_eq!(
        b.build(&ctx()),
        Err(CompileError::MissingDependency(
            "draw".to_string(),
            DependencyKind::GraphicsPipeline
        ))
    );
}

#[test]
fn present_without_acquire_is_missing_dependency() {
    let mut b = RenderDAGBuilder::new();
    let rp = b.add_node("pass".to_string(), NodeBuilder::RenderPass).unwrap();
    let pr = b.add_node("present".to_string(), NodeBuilder::PresentImage).unwrap();
    b.add_edge(rp, pr).unwrap();
    assert_eq!(
        b.build(&ctx()),
        Err(CompileError::MissingDependency(
            "present".to_string(),
            DependencyKind::AcquirePresentImage
        ))
    );
}

#[test]
fn framebuffer_entry_counts_swapchain_images() {
    let mut b = RenderDAGBuilder::new();
    let rp = b.add_node("pass".to_string(), NodeBuilder::RenderPass).unwrap();
    let fb = b.add_node("fb".to_string(), NodeBuilder::Framebuffer).unwrap();
    b.add_edge(rp, fb).unwrap();
    let dag = b.build(&ctx()).unwrap();
    assert_eq!(dag.registry.framebuffers.len(), 1);
    let entry = &dag.registry.framebuffers[0];
    assert_eq!(entry.image_count, 3);
    let rp_entry = &dag.registry.renderpasses[0];
    assert_eq!(entry.renderpass, rp_entry.handle);
}

#[test]
fn pipeline_layout_chains_descriptor_sets() {
    let mut b = RenderDAGBuilder::new();
    let ds = b.add_node("set".to_string(), NodeBuilder::DescriptorSet(1)).unwrap();
    let pl = b.add_node("layout".to_string(), NodeBuilder::PipelineLayout).unwrap();
    b.add_edge(ds, pl).unwrap();
    let dag = b.build(&ctx()).unwrap();
    let ds_entry = &dag.registry.descriptor_sets[0];
    let pl_entry = &dag.registry.pipeline_layouts[0];
    assert_eq!(pl_entry.set_layouts, vec![ds_entry.layout_handle]);
    let name = "layout".to_string();
    assert!(dag.registry.pipeline_layout(&name).is_some());
    let missing = "nothing".to_string();
    assert!(dag.registry.pipeline_layout(&missing).is_none());
}

#[test]
fn empty_description_compiles_to_an_empty_frame() {
    let b = RenderDAGBuilder::new();
    let dag = b.build(&ctx()).unwrap();
    assert!(dag.nodes.is_empty());
    assert!(dag.edges.is_empty());
    assert!(dag.registry.renderpasses.is_empty());
    assert_eq!(dag.run(0), Vec::new());
}

#[test]
fn equal_attachment_indices_keep_declaration_order() {
    let mut b = RenderDAGBuilder::new();
    let c1 = b.add_node("c1".to_string(), NodeBuilder::SwapchainAttachment(1)).unwrap();
    let d1 = b.add_node("d1".to_string(), NodeBuilder::DepthAttachment(1)).unwrap();
    let c0 = b.add_node("c0".to_string(), NodeBuilder::SwapchainAttachment(0)).unwrap();
    let rp = b.add_node("pass".to_string(), NodeBuilder::RenderPass).unwrap();
    b.add_edge(c1, rp).unwrap();
    b.add_edge(d1, rp).unwrap();
    b.add_edge(c0, rp).unwrap();
    let dag = b.build(&ctx()).unwrap();
    let atts = &dag.registry.renderpasses[0].attachments;
    assert_eq!(atts.len(), 3);
    assert_eq!((atts[0].index, atts[0].class), (0, AttachmentClass::Color));
    assert_eq!((atts[1].index, atts[1].class), (1, AttachmentClass::Color));
    assert_eq!((atts[2].index, atts[2].class), (1, AttachmentClass::Depth));
}
