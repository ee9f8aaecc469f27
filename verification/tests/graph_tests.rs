//! Render graph: dependency ordering, build-time errors, execution rules.

use render_core::graph::{
    DataHandle, GraphError, GraphExecutor, Node, NodeResourceUsage, RenderGraph,
};

fn position(order: &[usize], node: usize) -> usize {
    order.iter().position(|&n| n == node).expect("node missing from order")
}

#[test]
fn producer_runs_before_consumer_regardless_of_declaration_order() {
    // Declare the consumer first: the order must still put the producer
    // ahead of it.
    let mut graph = RenderGraph::new();
    let x = graph.add_data();
    let mut b = Node::new(String::from("read x"));
    b.add_data(x, NodeResourceUsage::Input);
    let b_id = graph.add_node(b);
    let mut a = Node::new(String::from("write x"));
    a.add_data(x, NodeResourceUsage::Output);
    let a_id = graph.add_node(a);
    let sched = graph.resolve().expect("graph resolves");
    let order = sched.order_vec().clone();
    assert_eq!(order.len(), 2);
    assert!(position(&order, a_id) < position(&order, b_id));
}

#[test]
fn reference_also_orders_after_producer() {
    let mut graph = RenderGraph::new();
    let t = graph.add_render_target();
    let mut b = Node::new(String::from("sample shadows"));
    b.add_render_target(t, NodeResourceUsage::Reference);
    let b_id = graph.add_node(b);
    let mut a = Node::new(String::from("render shadows"));
    a.add_render_target(t, NodeResourceUsage::Output);
    let a_id = graph.add_node(a);
    let order = graph.resolve().expect("graph resolves").order_vec().clone();
    assert!(position(&order, a_id) < position(&order, b_id));
}

#[test]
fn two_outputs_on_one_slot_fail_at_build_time() {
    let mut graph = RenderGraph::new();
    let x = graph.add_data();
    let mut a = Node::new(String::from("first writer"));
    a.add_data(x, NodeResourceUsage::Output);
    graph.add_node(a);
    let mut b = Node::new(String::from("second writer"));
    b.add_data(x, NodeResourceUsage::Output);
    graph.add_node(b);
    assert_eq!(graph.resolve().err(), Some(GraphError::MultipleProducers));
}

#[test]
fn consumed_slot_without_producer_fails_at_build_time() {
    let mut graph = RenderGraph::new();
    let x = graph.add_data();
    let mut b = Node::new(String::from("reader"));
    b.add_data(x, NodeResourceUsage::Input);
    graph.add_node(b);
    assert_eq!(graph.resolve().err(), Some(GraphError::NoProducer));
}

#[test]
fn cycle_via_explicit_edges_fails_at_build_time() {
    // A produces data d1 and target t1; B produces data d2 and target t2.
    // The extra edges order t2 before d1's producer (B before A) and t1
    // before d2's producer (A before B): a cycle.
    let mut graph = RenderGraph::new();
    let d1 = graph.add_data();
    let d2 = graph.add_data();
    let t1 = graph.add_render_target();
    let t2 = graph.add_render_target();
    let mut a = Node::new(String::from("a"));
    a.add_data(d1, NodeResourceUsage::Output);
    a.add_render_target(t1, NodeResourceUsage::Output);
    a.add_dependencies_to_render_targets(d1, &vec![t2]);
    graph.add_node(a);
    let mut b = Node::new(String::from("b"));
    b.add_data(d2, NodeResourceUsage::Output);
    b.add_render_target(t2, NodeResourceUsage::Output);
    b.add_dependencies_to_render_targets(d2, &vec![t1]);
    graph.add_node(b);
    assert_eq!(graph.resolve().err(), Some(GraphError::Cycle));
}

#[test]
fn explicit_edge_orders_target_producer_first() {
    let mut graph = RenderGraph::new();
    let d = graph.add_data();
    let t = graph.add_render_target();
    let mut a = Node::new(String::from("build uniforms"));
    a.add_data(d, NodeResourceUsage::Output);
    a.add_render_target(t, NodeResourceUsage::Reference);
    a.add_dependencies_to_render_targets(d, &vec![t]);
    let a_id = graph.add_node(a);
    let mut b = Node::new(String::from("render shadow target"));
    b.add_render_target(t, NodeResourceUsage::Output);
    let b_id = graph.add_node(b);
    let order = graph.resolve().expect("graph resolves").order_vec().clone();
    assert!(position(&order, b_id) < position(&order, a_id));
}

#[test]
fn execution_enforces_declared_access() {
    let mut graph = RenderGraph::new();
    let x = graph.add_data();
    let y = graph.add_data();
    let mut a = Node::new(String::from("produce"));
    a.add_data(x, NodeResourceUsage::Output);
    a.add_data(y, NodeResourceUsage::Output);
    let a_id = graph.add_node(a);
    let mut b = Node::new(String::from("consume"));
    b.add_data(x, NodeResourceUsage::Input);
    let b_id = graph.add_node(b);
    let sched = graph.resolve().expect("graph resolves");
    let mut exec: GraphExecutor<u64> = GraphExecutor::new(sched);

    // Producer node first.
    assert_eq!(exec.current_node(), Some(a_id));
    // Reading a slot this node did not declare as input fails.
    assert_eq!(exec.get_data(x).err(), Some(GraphError::NotDeclared));
    // Finishing before writing the outputs fails.
    assert_eq!(exec.advance_node().err(), Some(GraphError::OutputNotWritten));
    assert_eq!(exec.set_data(x, 41), Ok(()));
    // A second write of the same Output slot fails.
    assert_eq!(exec.set_data(x, 42).err(), Some(GraphError::AlreadySet));
    assert_eq!(exec.set_data(y, 7), Ok(()));
    assert_eq!(exec.advance_node(), Ok(()));

    // Consumer node next.
    assert_eq!(exec.current_node(), Some(b_id));
    // Writing a slot it never declared as Output fails.
    assert_eq!(exec.set_data(x, 1).err(), Some(GraphError::NotDeclared));
    // Reading an undeclared slot fails; the declared one yields the value.
    assert_eq!(exec.get_data(y).err(), Some(GraphError::NotDeclared));
    assert_eq!(exec.get_data(x), Ok(&41));
    assert_eq!(exec.advance_node(), Ok(()));
    assert_eq!(exec.current_node(), None);
}

#[test]
fn render_targets_resolve_only_when_declared() {
    let mut graph = RenderGraph::new();
    let t = graph.add_render_target();
    let t2 = graph.add_render_target();
    let mut a = Node::new(String::from("shadow pass"));
    a.add_render_target(t, NodeResourceUsage::Output);
    graph.add_node(a);
    let mut b = Node::new(String::from("forward pass"));
    b.add_render_target(t, NodeResourceUsage::Input);
    b.add_render_target(t2, NodeResourceUsage::Output);
    graph.add_node(b);
    let sched = graph.resolve().expect("graph resolves");
    let mut exec: GraphExecutor<u64> = GraphExecutor::new(sched);
    // First node declared only t.
    assert_eq!(exec.get_render_target(t), Ok(t.idx));
    assert_eq!(exec.get_render_target(t2).err(), Some(GraphError::NotDeclared));
    assert_eq!(exec.advance_node(), Ok(()));
    assert_eq!(exec.get_render_target(t), Ok(t.idx));
    assert_eq!(exec.get_render_target(t2), Ok(t2.idx));
}

#[test]
fn reading_a_slot_before_it_is_produced_fails() {
    // A node may declare both Output and Input on a slot; reading before
    // writing reports the slot as not yet produced.
    let mut graph = RenderGraph::new();
    let x = graph.add_data();
    let mut a = Node::new(String::from("write then read"));
    a.add_data(x, NodeResourceUsage::Output);
    a.add_data(x, NodeResourceUsage::Input);
    graph.add_node(a);
    let sched = graph.resolve().expect("graph resolves");
    let mut exec: GraphExecutor<u64> = GraphExecutor::new(sched);
    assert_eq!(exec.get_data(x).err(), Some(GraphError::NotProduced));
    assert_eq!(exec.set_data(x, 9), Ok(()));
    assert_eq!(exec.get_data(x), Ok(&9));
}
