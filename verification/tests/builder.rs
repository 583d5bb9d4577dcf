use render_graph::builder::{BuilderNode, CompileError, NodeBuilder, RenderDAGBuilder};

#[test]
fn add_node_registers_under_fresh_name() {
    let mut b = RenderDAGBuilder::new();
    let a = b.add_node("acquire".to_string(), NodeBuilder::AcquirePresentImage);
    assert!(a.is_ok());
    assert_eq!(a.unwrap().ix, 0);
    let c = b.add_node("pass".to_string(), NodeBuilder::RenderPass);
    assert_eq!(c.unwrap().ix, 1);
    assert_eq!(b.nodes.len(), 2);
}

#[test]
fn add_node_duplicate_name_fails_without_mutating() {
    let mut b = RenderDAGBuilder::new();
    b.add_node("pass".to_string(), NodeBuilder::RenderPass).unwrap();
    let before_nodes = b.nodes.clone();
    let before_edges = b.edges.clone();
    let r = b.add_node("pass".to_string(), NodeBuilder::Subpass(0));
    assert_eq!(r, Err(CompileError::DuplicateName));
    assert_eq!(b.nodes, before_nodes);
    assert_eq!(b.edges, before_edges);
}

#[test]
fn add_edge_records_dependency() {
    let mut b = RenderDAGBuilder::new();
    let x = b.add_node("a".to_string(), NodeBuilder::Subpass(0)).unwrap();
    let y = b.add_node("b".to_string(), NodeBuilder::RenderPass).unwrap();
    assert!(b.add_edge(x, y).is_ok());
    assert_eq!(b.edges, vec![(0, 1)]);
}

#[test]
fn add_edge_unregistered_endpoint_fails_without_mutating() {
    let mut b = RenderDAGBuilder::new();
    let x = b.add_node("a".to_string(), NodeBuilder::Subpass(0)).unwrap();
    let r = b.add_edge(x, BuilderNode { ix: 7 });
    assert_eq!(r, Err(CompileError::UnknownNode));
    assert!(b.edges.is_empty());
}
