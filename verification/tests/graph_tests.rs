use framegraph::graph::Context;
use framegraph::graph::DrawNode;
use framegraph::graph::Graph;
use framegraph::graph::GraphError;
use framegraph::graph::Node;
use framegraph::graph::PresentNode;
use framegraph::graph::WorkKind;

fn draw() -> Node {
    Node::Draw(DrawNode {})
}

fn present() -> Node {
    Node::Present(PresentNode {})
}

#[test]
fn empty_graph_has_empty_order() {
    let g = Graph::new();
    assert_eq!(g.node_count(), 0);
    assert_eq!(g.topological_order(), Ok(Vec::new()));
}

#[test]
fn scenario_single_draw_node() {
    let mut g = Graph::new();
    let id = g.add(draw(), &[]).unwrap();
    assert_eq!(id, 0);
    assert_eq!(g.topological_order(), Ok(vec![0]));
    let mut ctx = Context::new();
    assert_eq!(g.execute(&mut ctx), Ok(()));
    assert_eq!(ctx.issued().clone(), vec![WorkKind::Draw]);
}

#[test]
fn scenario_draw_then_present() {
    let mut g = Graph::new();
    let d = g.add(draw(), &[]).unwrap();
    let p = g.add(present(), &[d]).unwrap();
    assert_eq!((d, p), (0, 1));
    assert_eq!(g.topological_order(), Ok(vec![0, 1]));
    let mut ctx = Context::new();
    assert_eq!(g.execute(&mut ctx), Ok(()));
    assert_eq!(ctx.issued().clone(), vec![WorkKind::Draw, WorkKind::Present]);
}

#[test]
fn scenario_reversed_edge() {
    let mut g = Graph::new();
    g.add(draw(), &[]).unwrap();
    g.add(present(), &[]).unwrap();
    g.add_edge(1, 0).unwrap();
    assert_eq!(g.topological_order(), Ok(vec![1, 0]));
    let mut ctx = Context::new();
    assert_eq!(g.execute(&mut ctx), Ok(()));
    assert_eq!(ctx.issued().clone(), vec![WorkKind::Present, WorkKind::Draw]);
}

#[test]
fn scenario_join_runs_last() {
    let mut g = Graph::new();
    let a = g.add(draw(), &[]).unwrap();
    let b = g.add(draw(), &[]).unwrap();
    let c = g.add(present(), &[a, b]).unwrap();
    let order = g.topological_order().unwrap();
    assert_eq!(order.len(), 3);
    assert_eq!(order[2], c);
    assert!(order.contains(&a) && order.contains(&b));
}

#[test]
fn scenario_two_cycle_fails() {
    let mut g = Graph::new();
    g.add(draw(), &[]).unwrap();
    g.add(draw(), &[]).unwrap();
    g.add_edge(0, 1).unwrap();
    g.add_edge(1, 0).unwrap();
    let mut ctx = Context::new();
    assert_eq!(g.execute(&mut ctx), Err(GraphError::CyclicDependency));
    assert!(ctx.issued().is_empty());
    assert_eq!(g.topological_order(), Err(GraphError::CyclicDependency));
}

#[test]
fn self_edge_is_a_cycle() {
    let mut g = Graph::new();
    g.add(draw(), &[]).unwrap();
    g.add_edge(0, 0).unwrap();
    assert_eq!(g.topological_order(), Err(GraphError::CyclicDependency));
}

#[test]
fn longer_cycle_fails_and_executes_nothing() {
    let mut g = Graph::new();
    g.add(draw(), &[]).unwrap();
    g.add(draw(), &[]).unwrap();
    g.add(present(), &[]).unwrap();
    g.add_edge(0, 1).unwrap();
    g.add_edge(1, 2).unwrap();
    g.add_edge(2, 0).unwrap();
    let mut ctx = Context::new();
    assert_eq!(g.execute(&mut ctx), Err(GraphError::CyclicDependency));
    assert!(ctx.issued().is_empty());
}

#[test]
fn unknown_dependency_rejected() {
    let mut g = Graph::new();
    assert_eq!(g.add(draw(), &[3]), Err(GraphError::InvalidDependency));
    assert_eq!(g.node_count(), 0);
    assert_eq!(g.add(draw(), &[]), Ok(0));
    assert_eq!(g.add(present(), &[1]), Err(GraphError::InvalidDependency));
    assert_eq!(g.node_count(), 1);
}

#[test]
fn unknown_edge_endpoint_rejected() {
    let mut g = Graph::new();
    g.add(draw(), &[]).unwrap();
    assert_eq!(g.add_edge(0, 5), Err(GraphError::InvalidDependency));
    assert_eq!(g.add_edge(5, 0), Err(GraphError::InvalidDependency));
    assert_eq!(g.topological_order(), Ok(vec![0]));
}

#[test]
fn duplicate_edges_are_harmless() {
    let mut g = Graph::new();
    let d = g.add(draw(), &[]).unwrap();
    g.add(present(), &[d, d]).unwrap();
    g.add_edge(0, 1).unwrap();
    assert_eq!(g.topological_order(), Ok(vec![0, 1]));
}

#[test]
fn order_is_idempotent() {
    let mut g = Graph::new();
    let a = g.add(draw(), &[]).unwrap();
    let b = g.add(draw(), &[]).unwrap();
    g.add(present(), &[a, b]).unwrap();
    let first = g.topological_order().unwrap();
    let second = g.topological_order().unwrap();
    assert_eq!(first, second);
}

#[test]
fn fresh_node_without_dependencies_is_eligible() {
    let mut g = Graph::new();
    let d = g.add(draw(), &[]).unwrap();
    g.add(present(), &[d]).unwrap();
    let late = g.add(draw(), &[]).unwrap();
    assert_eq!(late, 2);
    let order = g.topological_order().unwrap();
    assert_eq!(order, vec![0, 1, 2]);
}

#[test]
fn noop_nodes_issue_nothing() {
    let mut g = Graph::new();
    let d = g.add(draw(), &[]).unwrap();
    let pause = g.add(Node::NoOp, &[d]).unwrap();
    g.add(present(), &[pause]).unwrap();
    let mut ctx = Context::new();
    assert_eq!(g.execute(&mut ctx), Ok(()));
    assert_eq!(ctx.issued().clone(), vec![WorkKind::Draw, WorkKind::Present]);
}
