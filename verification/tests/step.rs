use lemon_graph::execution::step::{ExecutionStep, ExecutionStepError, StepOutcome};
use lemon_graph::graph::{FlowGraph, GraphEdge, GraphNode};
use lemon_graph::nodes::{AsyncNode, Deferred, NodeError, SyncNode};
use lemon_graph::value::Value;
use petgraph::graph::NodeIndex;

struct TestSync;

impl SyncNode for TestSync {
    fn run(&self, inputs: Vec<Value>) -> Result<Vec<Value>, NodeError> {
        Ok(inputs)
    }
}

struct TestAsync;

impl AsyncNode for TestAsync {
    fn run(&self, inputs: Vec<Value>) -> Deferred<Result<Vec<Value>, NodeError>> {
        Deferred(Box::new(Box::pin(async move { Ok(inputs) })))
    }
}

/// Fails with the position of its missing argument.
struct Failing;

impl SyncNode for Failing {
    fn run(&self, inputs: Vec<Value>) -> Result<Vec<Value>, NodeError> {
        Err(NodeError::MissingInput(inputs.len()))
    }
}

/// Returns three fixed results, whatever it is given.
struct Three;

impl SyncNode for Three {
    fn run(&self, _inputs: Vec<Value>) -> Result<Vec<Value>, NodeError> {
        Ok(vec![text("zero"), text("one"), text("two")])
    }
}

fn text(s: &str) -> Value {
    Value::String(s.to_string())
}

fn store(graph: &mut FlowGraph, s: &str) -> NodeIndex {
    graph.add_node(GraphNode::Store(text(s)))
}

fn held(graph: &FlowGraph, store: NodeIndex) -> Value {
    match graph.node_weight(store).unwrap() {
        GraphNode::Store(value) => value.clone(),
        _ => panic!(),
    }
}

fn finish(outcome: Result<StepOutcome, ExecutionStepError>) -> Vec<NodeIndex> {
    match outcome.unwrap() {
        StepOutcome::Finished(steps) => steps.into_iter().map(|step| step.0).collect(),
        StepOutcome::Suspended(_) => panic!(),
    }
}

#[test]
fn test_sync_execution() {
    let mut graph = FlowGraph::default();

    let input = graph.add_node(GraphNode::Store(Value::String("Hello, world!".to_string())));
    let node = graph.add_node(GraphNode::SyncNode(Box::new(TestSync)));
    let output = graph.add_node(GraphNode::Store(Value::String(Default::default())));
    graph.add_edge(input, node, GraphEdge::DataMap(0));
    graph.add_edge(node, output, GraphEdge::DataMap(0));

    let step = ExecutionStep(node);
    let next_steps = match step.execute(&mut graph).unwrap() {
        StepOutcome::Finished(steps) => steps,
        StepOutcome::Suspended(_) => panic!(),
    };
    assert!(next_steps.is_empty());

    let output_value = graph.node_weight(output).unwrap();
    let output_value = match output_value {
        GraphNode::Store(value) => value,
        _ => panic!(),
    };
    assert_eq!(output_value, &Value::String("Hello, world!".to_string()));
}

#[test]
fn test_async_execution() {
    let mut graph = FlowGraph::default();

    let input = graph.add_node(GraphNode::Store(Value::String("Hello, world!".to_string())));
    let node = graph.add_node(GraphNode::AsyncNode(Box::new(TestAsync)));
    let output = graph.add_node(GraphNode::Store(Value::String(Default::default())));
    graph.add_edge(input, node, GraphEdge::DataMap(0));
    graph.add_edge(node, output, GraphEdge::DataMap(0));

    let step = ExecutionStep(node);
    let pending = match step.execute(&mut graph).unwrap() {
        StepOutcome::Finished(_) => panic!(),
        StepOutcome::Suspended(pending) => pending,
    };
    // Nothing is committed before the computation has completed.
    assert_eq!(held(&graph, output), text(""));

    let runtime = tokio::runtime::Builder::new_current_thread().build().unwrap();
    let result = runtime.block_on(pending.0);
    let next_steps = step.resume(&mut graph, result).unwrap();
    assert!(next_steps.is_empty());

    let output_value = graph.node_weight(output).unwrap();
    let output_value = match output_value {
        GraphNode::Store(value) => value,
        _ => panic!(),
    };
    assert_eq!(output_value, &Value::String("Hello, world!".to_string()));
}

#[test]
fn step_on_a_store_is_invalid() {
    let mut graph = FlowGraph::default();
    let lone = store(&mut graph, "x");
    let result = ExecutionStep(lone).execute(&mut graph);
    assert!(matches!(result, Err(ExecutionStepError::InvalidWeight)));
    assert_eq!(held(&graph, lone), text("x"));
}

#[test]
fn step_on_a_missing_node_has_no_weight() {
    let mut graph = FlowGraph::default();
    store(&mut graph, "x");
    let result = ExecutionStep(NodeIndex::new(7)).execute(&mut graph);
    assert!(matches!(result, Err(ExecutionStepError::NoWeight)));
}

#[test]
fn arguments_follow_slots_not_edge_order() {
    let mut graph = FlowGraph::default();
    let a = store(&mut graph, "a");
    let b = store(&mut graph, "b");
    let c = store(&mut graph, "c");
    let node = graph.add_node(GraphNode::SyncNode(Box::new(TestSync)));
    let outputs = [store(&mut graph, ""), store(&mut graph, ""), store(&mut graph, "")];
    // Bound in scrambled order: slot 2 first, then 0, then 1.
    graph.add_edge(c, node, GraphEdge::DataMap(2));
    graph.add_edge(a, node, GraphEdge::DataMap(0));
    graph.add_edge(b, node, GraphEdge::DataMap(1));
    for (slot, output) in outputs.iter().enumerate() {
        graph.add_edge(node, *output, GraphEdge::DataMap(slot));
    }

    let inputs = ExecutionStep(node).resolve_inputs(&mut graph).unwrap();
    assert_eq!(inputs, vec![text("a"), text("b"), text("c")]);

    assert!(finish(ExecutionStep(node).execute(&mut graph)).is_empty());
    assert_eq!(held(&graph, outputs[0]), text("a"));
    assert_eq!(held(&graph, outputs[1]), text("b"));
    assert_eq!(held(&graph, outputs[2]), text("c"));
}

#[test]
fn gaps_and_equal_slots_are_not_validated() {
    let mut graph = FlowGraph::default();
    let a = store(&mut graph, "a");
    let b = store(&mut graph, "b");
    let c = store(&mut graph, "c");
    let node = graph.add_node(GraphNode::SyncNode(Box::new(TestSync)));
    graph.add_edge(a, node, GraphEdge::DataMap(5));
    graph.add_edge(b, node, GraphEdge::DataMap(2));
    graph.add_edge(c, node, GraphEdge::DataMap(2));

    // The graph walks the newest edge first: c, b, a. Equal slots keep that order.
    let inputs = ExecutionStep(node).resolve_inputs(&mut graph).unwrap();
    assert_eq!(inputs, vec![text("c"), text("b"), text("a")]);
}

#[test]
fn other_incoming_edges_bind_no_input() {
    let mut graph = FlowGraph::default();
    let a = store(&mut graph, "a");
    let before = graph.add_node(GraphNode::SyncNode(Box::new(TestSync)));
    let node = graph.add_node(GraphNode::SyncNode(Box::new(TestSync)));
    graph.add_edge(before, node, GraphEdge::ExecutionFlow);
    graph.add_edge(a, node, GraphEdge::DataMap(0));
    graph.add_edge(a, node, GraphEdge::DataFlow);

    let inputs = ExecutionStep(node).resolve_inputs(&mut graph).unwrap();
    assert_eq!(inputs, vec![text("a")]);
}

#[test]
fn a_plain_store_reads_the_same_again() {
    let mut graph = FlowGraph::default();
    let input = store(&mut graph, "steady");
    let node = graph.add_node(GraphNode::SyncNode(Box::new(TestSync)));
    graph.add_edge(input, node, GraphEdge::DataMap(0));

    for _ in 0..3 {
        let inputs = ExecutionStep(node).resolve_inputs(&mut graph).unwrap();
        assert_eq!(inputs, vec![text("steady")]);
        assert_eq!(held(&graph, input), text("steady"));
    }
    for _ in 0..3 {
        assert!(finish(ExecutionStep(node).execute(&mut graph)).is_empty());
        assert_eq!(held(&graph, input), text("steady"));
    }
}

#[test]
fn a_mirror_reflects_its_source_when_read() {
    let mut graph = FlowGraph::default();
    let source = store(&mut graph, "first");
    let mirror = store(&mut graph, "stale");
    let node = graph.add_node(GraphNode::SyncNode(Box::new(TestSync)));
    let output = store(&mut graph, "");
    graph.add_edge(source, mirror, GraphEdge::DataFlow);
    graph.add_edge(mirror, node, GraphEdge::DataMap(0));
    graph.add_edge(node, output, GraphEdge::DataMap(0));

    assert!(finish(ExecutionStep(node).execute(&mut graph)).is_empty());
    assert_eq!(held(&graph, mirror), text("first"));
    assert_eq!(held(&graph, output), text("first"));

    // The source is written by someone else between two steps.
    graph[source] = GraphNode::Store(text("second"));
    assert_eq!(held(&graph, mirror), text("first"));
    assert!(finish(ExecutionStep(node).execute(&mut graph)).is_empty());
    assert_eq!(held(&graph, source), text("second"));
    assert_eq!(held(&graph, mirror), text("second"));
    assert_eq!(held(&graph, output), text("second"));
}

#[test]
fn a_mirror_follows_the_output_of_another_step() {
    let mut graph = FlowGraph::default();
    let input = store(&mut graph, "payload");
    let first = graph.add_node(GraphNode::SyncNode(Box::new(TestSync)));
    let between = store(&mut graph, "");
    let mirror = store(&mut graph, "");
    let second = graph.add_node(GraphNode::SyncNode(Box::new(TestSync)));
    let output = store(&mut graph, "");
    graph.add_edge(input, first, GraphEdge::DataMap(0));
    graph.add_edge(first, between, GraphEdge::DataMap(0));
    graph.add_edge(between, mirror, GraphEdge::DataFlow);
    graph.add_edge(mirror, second, GraphEdge::DataMap(0));
    graph.add_edge(second, output, GraphEdge::DataMap(0));
    graph.add_edge(first, second, GraphEdge::ExecutionFlow);

    assert_eq!(finish(ExecutionStep(first).execute(&mut graph)), vec![second]);
    assert_eq!(held(&graph, between), text("payload"));
    assert_eq!(held(&graph, mirror), text(""));
    assert!(finish(ExecutionStep(second).execute(&mut graph)).is_empty());
    assert_eq!(held(&graph, mirror), text("payload"));
    assert_eq!(held(&graph, output), text("payload"));
}

#[test]
fn the_last_mirror_walked_wins() {
    let mut graph = FlowGraph::default();
    let older = store(&mut graph, "older");
    let newer = store(&mut graph, "newer");
    let mirror = store(&mut graph, "stale");
    let node = graph.add_node(GraphNode::SyncNode(Box::new(TestSync)));
    graph.add_edge(older, mirror, GraphEdge::DataFlow);
    graph.add_edge(newer, mirror, GraphEdge::DataFlow);
    graph.add_edge(mirror, node, GraphEdge::DataMap(0));

    // The graph walks the newest edge first, so the oldest is the last.
    let inputs = ExecutionStep(node).resolve_inputs(&mut graph).unwrap();
    assert_eq!(inputs, vec![text("older")]);
    assert_eq!(held(&graph, mirror), text("older"));
}

#[test]
fn a_mirror_of_a_computation_is_invalid() {
    let mut graph = FlowGraph::default();
    let wrong = graph.add_node(GraphNode::SyncNode(Box::new(TestSync)));
    let mirror = store(&mut graph, "kept");
    let node = graph.add_node(GraphNode::SyncNode(Box::new(TestSync)));
    graph.add_edge(wrong, mirror, GraphEdge::DataFlow);
    graph.add_edge(mirror, node, GraphEdge::DataMap(0));

    let result = ExecutionStep(node).execute(&mut graph);
    assert!(matches!(result, Err(ExecutionStepError::InvalidWeight)));
    assert_eq!(held(&graph, mirror), text("kept"));
}

#[test]
fn an_input_bound_to_a_computation_is_invalid() {
    let mut graph = FlowGraph::default();
    let wrong = graph.add_node(GraphNode::SyncNode(Box::new(TestSync)));
    let node = graph.add_node(GraphNode::SyncNode(Box::new(TestSync)));
    graph.add_edge(wrong, node, GraphEdge::DataMap(0));

    let result = ExecutionStep(node).resolve_inputs(&mut graph);
    assert!(matches!(result, Err(ExecutionStepError::InvalidWeight)));
}

#[test]
fn a_failed_step_keeps_refreshed_mirrors() {
    let mut graph = FlowGraph::default();
    let source = store(&mut graph, "fresh");
    let mirror = store(&mut graph, "stale");
    let wrong = graph.add_node(GraphNode::SyncNode(Box::new(TestSync)));
    let node = graph.add_node(GraphNode::SyncNode(Box::new(TestSync)));
    let output = store(&mut graph, "untouched");
    graph.add_edge(source, mirror, GraphEdge::DataFlow);
    // Walked second: the computation node that is no store.
    graph.add_edge(wrong, node, GraphEdge::DataMap(1));
    // Walked first: the mirror, which is refreshed.
    graph.add_edge(mirror, node, GraphEdge::DataMap(0));
    graph.add_edge(node, output, GraphEdge::DataMap(0));

    let result = ExecutionStep(node).execute(&mut graph);
    assert!(matches!(result, Err(ExecutionStepError::InvalidWeight)));
    assert_eq!(held(&graph, mirror), text("fresh"));
    assert_eq!(held(&graph, output), text("untouched"));
}

#[test]
fn a_failing_node_fails_the_step_and_commits_nothing() {
    let mut graph = FlowGraph::default();
    let input = store(&mut graph, "in");
    let node = graph.add_node(GraphNode::SyncNode(Box::new(Failing)));
    let output = store(&mut graph, "untouched");
    let next = graph.add_node(GraphNode::SyncNode(Box::new(TestSync)));
    graph.add_edge(input, node, GraphEdge::DataMap(0));
    graph.add_edge(node, output, GraphEdge::DataMap(0));
    graph.add_edge(node, next, GraphEdge::ExecutionFlow);

    let result = ExecutionStep(node).execute(&mut graph);
    assert!(matches!(
        result,
        Err(ExecutionStepError::NodeError(NodeError::MissingInput(1)))
    ));
    assert_eq!(held(&graph, output), text("untouched"));
}

#[test]
fn resume_with_a_failure_is_the_failure() {
    let mut graph = FlowGraph::default();
    let node = graph.add_node(GraphNode::AsyncNode(Box::new(TestAsync)));
    let output = store(&mut graph, "untouched");
    graph.add_edge(node, output, GraphEdge::DataMap(0));

    let reason = NodeError::InternalError("down".to_string());
    let result = ExecutionStep(node).resume(&mut graph, Err(reason));
    match result {
        Err(ExecutionStepError::NodeError(NodeError::InternalError(reason))) => assert_eq!(reason, "down"),
        _ => panic!(),
    }
    assert_eq!(held(&graph, output), text("untouched"));
}

#[test]
fn results_go_to_the_store_of_their_position() {
    let mut graph = FlowGraph::default();
    let node = graph.add_node(GraphNode::SyncNode(Box::new(Three)));
    let zero = store(&mut graph, "-");
    let two = store(&mut graph, "-");
    let seven = store(&mut graph, "-");
    let input = store(&mut graph, "-");
    graph.add_edge(node, zero, GraphEdge::DataMap(0));
    graph.add_edge(node, two, GraphEdge::DataMap(2));
    graph.add_edge(node, seven, GraphEdge::DataMap(7));
    graph.add_edge(input, node, GraphEdge::DataMap(0));

    assert!(finish(ExecutionStep(node).execute(&mut graph)).is_empty());
    assert_eq!(held(&graph, zero), text("zero"));
    assert_eq!(held(&graph, two), text("two"));
    // No result has position 7, and the result at position 1 has no store.
    assert_eq!(held(&graph, seven), text("-"));
    assert_eq!(held(&graph, input), text("-"));
}

#[test]
fn commit_outputs_drops_what_is_not_bound() {
    let mut graph = FlowGraph::default();
    let node = graph.add_node(GraphNode::SyncNode(Box::new(TestSync)));
    let only = store(&mut graph, "-");
    graph.add_edge(node, only, GraphEdge::DataMap(1));

    ExecutionStep(node).commit_outputs(&mut graph, vec![text("zero"), text("one"), text("two")]);
    assert_eq!(held(&graph, only), text("one"));
    assert_eq!(graph.node_count(), 2);
    assert_eq!(graph.edge_count(), 1);

    ExecutionStep(node).commit_outputs(&mut graph, vec![text("again")]);
    assert_eq!(held(&graph, only), text("one"));

    ExecutionStep(node).commit_outputs(&mut graph, Vec::new());
    assert_eq!(held(&graph, only), text("one"));
}

#[test]
fn of_two_stores_at_one_position_the_first_walked_is_written() {
    let mut graph = FlowGraph::default();
    let node = graph.add_node(GraphNode::SyncNode(Box::new(Three)));
    let older = store(&mut graph, "-");
    let newer = store(&mut graph, "-");
    graph.add_edge(node, older, GraphEdge::DataMap(0));
    graph.add_edge(node, newer, GraphEdge::DataMap(0));

    assert!(finish(ExecutionStep(node).execute(&mut graph)).is_empty());
    assert_eq!(held(&graph, newer), text("zero"));
    assert_eq!(held(&graph, older), text("-"));
}

#[test]
fn a_store_bound_to_two_positions_keeps_the_later_result() {
    let mut graph = FlowGraph::default();
    let node = graph.add_node(GraphNode::SyncNode(Box::new(Three)));
    let both = store(&mut graph, "-");
    graph.add_edge(node, both, GraphEdge::DataMap(2));
    graph.add_edge(node, both, GraphEdge::DataMap(0));

    assert!(finish(ExecutionStep(node).execute(&mut graph)).is_empty());
    assert_eq!(held(&graph, both), text("two"));
}

#[test]
fn a_commit_overwrites_a_node_that_is_no_store() {
    let mut graph = FlowGraph::default();
    let node = graph.add_node(GraphNode::SyncNode(Box::new(Three)));
    let target = graph.add_node(GraphNode::SyncNode(Box::new(TestSync)));
    graph.add_edge(node, target, GraphEdge::DataMap(1));

    assert!(finish(ExecutionStep(node).execute(&mut graph)).is_empty());
    assert_eq!(held(&graph, target), text("one"));
}

#[test]
fn no_execution_flow_no_successors() {
    let mut graph = FlowGraph::default();
    let input = store(&mut graph, "a");
    let node = graph.add_node(GraphNode::SyncNode(Box::new(TestSync)));
    let output = store(&mut graph, "");
    graph.add_edge(input, node, GraphEdge::DataMap(0));
    graph.add_edge(node, output, GraphEdge::DataMap(0));
    graph.add_edge(input, output, GraphEdge::DataFlow);

    assert!(ExecutionStep(node).successors(&graph).is_empty());
    assert!(finish(ExecutionStep(node).execute(&mut graph)).is_empty());
}

#[test]
fn two_execution_flows_two_successors() {
    let mut graph = FlowGraph::default();
    let node = graph.add_node(GraphNode::SyncNode(Box::new(TestSync)));
    let left = graph.add_node(GraphNode::SyncNode(Box::new(TestSync)));
    let right = graph.add_node(GraphNode::AsyncNode(Box::new(TestAsync)));
    graph.add_edge(node, left, GraphEdge::ExecutionFlow);
    graph.add_edge(node, right, GraphEdge::ExecutionFlow);

    // The graph walks the newest edge first.
    assert_eq!(finish(ExecutionStep(node).execute(&mut graph)), vec![right, left]);

    // Data edges change nothing about it.
    let input = store(&mut graph, "a");
    let output = store(&mut graph, "");
    graph.add_edge(input, node, GraphEdge::DataMap(0));
    graph.add_edge(node, output, GraphEdge::DataMap(0));
    graph.add_edge(node, output, GraphEdge::DataFlow);
    assert_eq!(finish(ExecutionStep(node).execute(&mut graph)), vec![right, left]);
    assert_eq!(held(&graph, output), text("a"));

    let steps: Vec<NodeIndex> =
        ExecutionStep(node).successors(&graph).into_iter().map(|step| step.0).collect();
    assert_eq!(steps, vec![right, left]);
}

#[test]
fn incoming_execution_flow_is_no_successor() {
    let mut graph = FlowGraph::default();
    let before = graph.add_node(GraphNode::SyncNode(Box::new(TestSync)));
    let node = graph.add_node(GraphNode::SyncNode(Box::new(TestSync)));
    graph.add_edge(before, node, GraphEdge::ExecutionFlow);
    graph.add_edge(node, node, GraphEdge::ExecutionFlow);

    assert_eq!(finish(ExecutionStep(node).execute(&mut graph)), vec![node]);
    assert_eq!(finish(ExecutionStep(before).execute(&mut graph)), vec![node]);
}

#[test]
fn an_asynchronous_node_gets_the_resolved_inputs() {
    let mut graph = FlowGraph::default();
    let b = store(&mut graph, "b");
    let a = store(&mut graph, "a");
    let node = graph.add_node(GraphNode::AsyncNode(Box::new(TestAsync)));
    let next = graph.add_node(GraphNode::SyncNode(Box::new(TestSync)));
    let outputs = [store(&mut graph, ""), store(&mut graph, "")];
    graph.add_edge(b, node, GraphEdge::DataMap(1));
    graph.add_edge(a, node, GraphEdge::DataMap(0));
    graph.add_edge(node, outputs[0], GraphEdge::DataMap(0));
    graph.add_edge(node, outputs[1], GraphEdge::DataMap(1));
    graph.add_edge(node, next, GraphEdge::ExecutionFlow);

    let step = ExecutionStep(node);
    let pending = match step.execute(&mut graph).unwrap() {
        StepOutcome::Finished(_) => panic!(),
        StepOutcome::Suspended(pending) => pending,
    };
    let runtime = tokio::runtime::Builder::new_current_thread().build().unwrap();
    let result = runtime.block_on(pending.0);
    let next_steps = step.resume(&mut graph, result).unwrap();
    assert_eq!(next_steps.len(), 1);
    assert_eq!(next_steps[0].0, next);
    assert_eq!(held(&graph, outputs[0]), text("a"));
    assert_eq!(held(&graph, outputs[1]), text("b"));
}

#[test]
fn a_node_error_becomes_a_step_error() {
    let error = ExecutionStepError::from(NodeError::MissingInput(3));
    assert!(matches!(
        error,
        ExecutionStepError::NodeError(NodeError::MissingInput(3))
    ));
}

#[test]
fn a_node_that_is_no_store_is_not_refreshed() {
    let mut graph = FlowGraph::default();
    let source = store(&mut graph, "mirrored");
    let bound = graph.add_node(GraphNode::SyncNode(Box::new(TestSync)));
    let node = graph.add_node(GraphNode::SyncNode(Box::new(TestSync)));
    graph.add_edge(source, bound, GraphEdge::DataFlow);
    graph.add_edge(bound, node, GraphEdge::DataMap(0));

    let result = ExecutionStep(node).resolve_inputs(&mut graph);
    assert!(matches!(result, Err(ExecutionStepError::InvalidWeight)));
    assert!(matches!(graph.node_weight(bound), Some(GraphNode::SyncNode(_))));
    assert_eq!(held(&graph, source), text("mirrored"));
}

#[test]
fn a_step_that_reads_itself_as_input_is_invalid() {
    let mut graph = FlowGraph::default();
    let source = store(&mut graph, "mirrored");
    let node = graph.add_node(GraphNode::SyncNode(Box::new(TestSync)));
    graph.add_edge(source, node, GraphEdge::DataFlow);
    graph.add_edge(node, node, GraphEdge::DataMap(0));

    let result = ExecutionStep(node).execute(&mut graph);
    assert!(matches!(result, Err(ExecutionStepError::InvalidWeight)));
    assert!(matches!(graph.node_weight(node), Some(GraphNode::SyncNode(_))));
}

#[test]
fn a_mirror_among_several_inputs_reflects_its_source() {
    let mut graph = FlowGraph::default();
    let source = store(&mut graph, "fresh");
    let mirror = store(&mut graph, "stale");
    let plain = store(&mut graph, "plain");
    let node = graph.add_node(GraphNode::SyncNode(Box::new(TestSync)));
    let outputs = [store(&mut graph, ""), store(&mut graph, ""), store(&mut graph, "")];
    graph.add_edge(source, mirror, GraphEdge::DataFlow);
    graph.add_edge(plain, node, GraphEdge::DataMap(2));
    graph.add_edge(mirror, node, GraphEdge::DataMap(1));
    graph.add_edge(source, node, GraphEdge::DataMap(0));
    for (slot, output) in outputs.iter().enumerate() {
        graph.add_edge(node, *output, GraphEdge::DataMap(slot));
    }

    let inputs = ExecutionStep(node).resolve_inputs(&mut graph).unwrap();
    assert_eq!(inputs, vec![text("fresh"), text("fresh"), text("plain")]);
    assert_eq!(held(&graph, source), text("fresh"));
    assert_eq!(held(&graph, mirror), text("fresh"));

    graph[source] = GraphNode::Store(text("fresher"));
    assert!(finish(ExecutionStep(node).execute(&mut graph)).is_empty());
    assert_eq!(held(&graph, source), text("fresher"));
    assert_eq!(held(&graph, mirror), text("fresher"));
    assert_eq!(held(&graph, outputs[0]), text("fresher"));
    assert_eq!(held(&graph, outputs[1]), text("fresher"));
    assert_eq!(held(&graph, outputs[2]), text("plain"));
}

#[test]
fn a_mirror_of_a_mirror_sees_what_was_refreshed_before_it() {
    let mut graph = FlowGraph::default();
    let source = store(&mut graph, "fresh");
    let middle = store(&mut graph, "stale");
    let last = store(&mut graph, "staler");
    let node = graph.add_node(GraphNode::SyncNode(Box::new(TestSync)));
    graph.add_edge(source, middle, GraphEdge::DataFlow);
    graph.add_edge(middle, last, GraphEdge::DataFlow);
    // Walked second: `last`, which mirrors `middle`.
    graph.add_edge(last, node, GraphEdge::DataMap(1));
    // Walked first: `middle`, which is refreshed from `source`.
    graph.add_edge(middle, node, GraphEdge::DataMap(0));

    let inputs = ExecutionStep(node).resolve_inputs(&mut graph).unwrap();
    assert_eq!(inputs, vec![text("fresh"), text("fresh")]);
    assert_eq!(held(&graph, middle), text("fresh"));
    assert_eq!(held(&graph, last), text("fresh"));
}
