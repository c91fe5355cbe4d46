use std::cell::Cell;
use std::collections::VecDeque;
use std::rc::Rc;

use crabgraph::edge::{EdgeFunction, EdgeKind, Router};
use crabgraph::graph::Graph;
use crabgraph::keys::KeySet;
use crabgraph::node::{NodeFunction, NodeKey, NodeSequence};
use crabgraph::scheduler::Scheduler;
use crabgraph::state::{Modification, State};
use crabgraph::utils::{ByInto, ByIntoIter, ByOk, ByResult, IntoSet, TryIntoSet};
use crabgraph::{Context, GraphError, JsonValue, RunError};

type Step = Box<dyn Fn(&mut State) -> Result<(), RunError>>;
type Route = Box<dyn Fn(&State) -> Vec<String>>;
type Kind = EdgeKind<Route, ()>;

fn named(name: &'static str) -> NodeKey {
    NodeKey::const_new(name)
}

fn number(state: &State, field: &str) -> i64 {
    match state.as_object().get(field) {
        Some(JsonValue::Number(n)) => *n,
        _ => 0,
    }
}

fn texts(state: &State, field: &str) -> Vec<String> {
    match state.as_object().get(field) {
        Some(JsonValue::Array(items)) => items
            .iter()
            .map(|item| match item {
                JsonValue::Text(text) => text.clone(),
                other => format!("{:?}", other),
            })
            .collect(),
        _ => vec![],
    }
}

fn routed(route: Route, entries: Vec<(&str, NodeKey)>) -> Kind {
    let mut router = Router::new();
    for (value, to) in entries {
        router.insert(value.to_string(), to);
    }
    EdgeKind::Routed(EdgeFunction { f: route, router })
}

fn step(change: fn() -> Modification, runs: Rc<Cell<usize>>) -> Step {
    Box::new(move |state: &mut State| {
        runs.set(runs.get() + 1);
        state.apply_modification(change());
        Ok(())
    })
}

/// Runs `graph` on `state`, one step at a time; returns the keys of the
/// steps in the order in which they ran.
fn drive(graph: &Graph<Step, Kind>, state: &mut State) -> (Vec<NodeKey>, Result<(), RunError>) {
    let mut run = Scheduler::start();
    let mut done: VecDeque<(NodeKey, Result<(), RunError>)> = VecDeque::new();
    let mut ran = Vec::new();
    done.push_back((NodeKey::Start, Ok(())));
    while let Some((key, outcome)) = done.pop_front() {
        let mut values: Vec<Vec<String>> = Vec::new();
        if run.wants_routing(&outcome) {
            if let Some(edges) = graph.edges_from(&key) {
                for edge in edges {
                    values.push(match edge {
                        EdgeKind::Routed(edge) => (edge.f)(state),
                        _ => vec![],
                    });
                }
            }
        }
        let started = run.on_completion(graph, &key, outcome, &values);
        for next in started {
            let node = graph.node(&next).expect("a step that was started is registered");
            let outcome = node(state);
            ran.push(next.clone());
            done.push_back((next, outcome));
        }
    }
    assert!(run.is_quiescent());
    assert_eq!(run.in_flight(), 0);
    (ran, run.finish())
}

#[test]
fn a_step_that_loops_while_its_count_is_small_runs_three_times() {
    let runs = Rc::new(Cell::new(0));
    let mut graph: Graph<Step, Kind> = Graph::new();
    graph
        .add_node(named("step"), step(|| Modification::Increment("n".to_string()), runs.clone()))
        .add_edge(NodeKey::Start, EdgeKind::To(named("step")))
        .add_edge(
            named("step"),
            routed(
                Box::new(|state: &State| {
                    vec![if number(state, "n") < 3 { "loop".to_string() } else { "done".to_string() }]
                }),
                vec![("loop", named("step")), ("done", NodeKey::End)],
            ),
        );
    assert_eq!(graph.check(), Ok(()));
    let mut state = State::new();
    state.apply_modification(Modification::SetField("n".to_string(), JsonValue::Number(0)));
    let (ran, outcome) = drive(&graph, &mut state);
    assert!(outcome.is_ok());
    assert_eq!(runs.get(), 3);
    assert_eq!(ran, vec![named("step"), named("step"), named("step")]);
    assert_eq!(number(&state, "n"), 3);
}

#[test]
fn a_routing_value_outside_the_table_fails_the_run_and_starts_nothing() {
    let runs = Rc::new(Cell::new(0));
    let mut graph: Graph<Step, Kind> = Graph::new();
    graph
        .add_node(named("first"), step(|| Modification::Increment("n".to_string()), runs.clone()))
        .add_node(named("second"), step(|| Modification::Increment("n".to_string()), runs.clone()))
        .add_edge(NodeKey::Start, EdgeKind::To(named("first")))
        .add_edge(named("first"), EdgeKind::To(named("second")))
        .add_edge(
            named("first"),
            routed(
                Box::new(|_: &State| vec!["nowhere".to_string()]),
                vec![("on", named("second")), ("done", NodeKey::End)],
            ),
        )
        .add_edge(named("second"), EdgeKind::To(NodeKey::End));
    assert_eq!(graph.check(), Ok(()));
    let mut state = State::new();
    let (ran, outcome) = drive(&graph, &mut state);
    assert_eq!(ran, vec![named("first")]);
    assert_eq!(runs.get(), 1);
    match outcome {
        Err(RunError::ResolveNextNodesError { error, node_key }) => {
            assert_eq!(node_key, named("first"));
            match *error {
                RunError::GraphError(GraphError::UndefinedRoute(name)) => {
                    assert_eq!(name, "\"nowhere\"")
                }
                other => panic!("unexpected: {:?}", other),
            }
        }
        other => panic!("unexpected: {:?}", other),
    }
}

#[test]
fn two_branches_that_append_to_one_array_both_leave_their_value() {
    let runs = Rc::new(Cell::new(0));
    let mut graph: Graph<Step, Kind> = Graph::new();
    graph
        .add_node(named("fan"), step(|| Modification::Increment("n".to_string()), runs.clone()))
        .add_node(
            named("left"),
            step(
                || Modification::ExtendArray("log".to_string(), vec![JsonValue::Text("l".to_string())]),
                runs.clone(),
            ),
        )
        .add_node(
            named("right"),
            step(
                || Modification::ExtendArray("log".to_string(), vec![JsonValue::Text("r".to_string())]),
                runs.clone(),
            ),
        )
        .add_edge(NodeKey::Start, EdgeKind::To(named("fan")))
        .add_edge(
            named("fan"),
            EdgeKind::ToAll(KeySet::from_vec(vec![named("left"), named("right")])),
        )
        .add_edge(named("left"), EdgeKind::To(NodeKey::End))
        .add_edge(named("right"), EdgeKind::To(NodeKey::End));
    assert_eq!(graph.check(), Ok(()));
    let mut state = State::new();
    let (ran, outcome) = drive(&graph, &mut state);
    assert!(outcome.is_ok());
    assert_eq!(ran.len(), 3);
    let log = texts(&state, "log");
    assert_eq!(log.len(), 2);
    assert!(log.contains(&"l".to_string()));
    assert!(log.contains(&"r".to_string()));
}

#[test]
fn test() {
    let counter = Rc::new(Cell::new(0i64));
    let runs = Rc::new(Cell::new(0));
    let count = counter.clone();
    let increase_counter: Step = Box::new(move |state: &mut State| {
        let index = count.get();
        count.set(index + 1);
        state.apply_modification(Modification::SetField(
            "index".to_string(),
            JsonValue::Number(index),
        ));
        Ok(())
    });
    let add_log: Step = step(
        || Modification::SetField("__log".to_string(), JsonValue::Text("hello world".to_string())),
        runs.clone(),
    );
    let print_state: Step = Box::new(|state: &mut State| {
        println!("State: {:?}", state);
        Ok(())
    });
    let mut graph: Graph<Step, Kind> = Graph::new();
    graph
        .add_node(named("add_log"), add_log)
        .add_node(named("print_state"), print_state)
        .add_node(named("increase_counter"), increase_counter)
        .add_edge(
            named("add_log"),
            EdgeKind::ToAll(KeySet::from_vec(vec![named("print_state"), NodeKey::End])),
        )
        .add_edge(
            named("increase_counter"),
            routed(
                Box::new(|state: &State| {
                    vec![if number(state, "index") % 2 == 1 { "odd".to_string() } else { "even".to_string() }]
                }),
                vec![("even", named("print_state")), ("odd", NodeKey::End)],
            ),
        )
        .add_edge(named("increase_counter"), EdgeKind::To(named("add_log")))
        .add_edge(
            NodeKey::Start,
            EdgeKind::ToAll(KeySet::from_vec(vec![named("print_state"), named("increase_counter")])),
        )
        .add_edge(named("print_state"), EdgeKind::To(NodeKey::End));
    assert_eq!(graph.check(), Ok(()));
    let mut first = State::default();
    let (ran, outcome) = drive(&graph, &mut first);
    println!("Call result: {:?}", first);
    assert!(outcome.is_ok());
    assert_eq!(
        ran,
        vec![
            named("print_state"),
            named("increase_counter"),
            named("print_state"),
            named("add_log"),
            named("print_state"),
        ]
    );
    assert_eq!(number(&first, "index"), 0);
    let mut second = State::default();
    let (ran, outcome) = drive(&graph, &mut second);
    println!("Call result: {:?}", second);
    assert!(outcome.is_ok());
    assert_eq!(
        ran,
        vec![
            named("print_state"),
            named("increase_counter"),
            named("add_log"),
            named("print_state"),
        ]
    );
    assert_eq!(number(&second, "index"), 1);
    assert_eq!(runs.get(), 2);
}

#[test]
fn a_failed_step_fails_the_run_with_its_key() {
    let runs = Rc::new(Cell::new(0));
    let mut graph: Graph<Step, Kind> = Graph::new();
    graph
        .add_node(
            named("bad"),
            Box::new(|_: &mut State| Err(RunError::GraphError(GraphError::PointToStart))) as Step,
        )
        .add_node(named("good"), step(|| Modification::Increment("n".to_string()), runs.clone()))
        .add_node(named("after"), step(|| Modification::Increment("n".to_string()), runs.clone()))
        .add_edge(
            NodeKey::Start,
            EdgeKind::ToAll(KeySet::from_vec(vec![named("bad"), named("good")])),
        )
        .add_edge(named("bad"), EdgeKind::To(NodeKey::End))
        .add_edge(named("good"), EdgeKind::To(named("after")))
        .add_edge(named("after"), EdgeKind::To(NodeKey::End));
    let mut state = State::new();
    let (ran, outcome) = drive(&graph, &mut state);
    assert_eq!(ran, vec![named("bad"), named("good")]);
    assert_eq!(number(&state, "n"), 1);
    match outcome {
        Err(RunError::StepFailed { error, node_key }) => {
            assert_eq!(node_key, named("bad"));
            assert!(matches!(*error, RunError::GraphError(GraphError::PointToStart)));
        }
        other => panic!("unexpected: {:?}", other),
    }
}

#[test]
fn a_destination_without_a_step_fails_the_run_and_starts_nothing() {
    let runs = Rc::new(Cell::new(0));
    let mut graph: Graph<Step, Kind> = Graph::new();
    graph
        .add_node(named("known"), step(|| Modification::Increment("n".to_string()), runs.clone()))
        .add_edge(
            NodeKey::Start,
            EdgeKind::ToAll(KeySet::from_vec(vec![named("known"), named("unknown")])),
        )
        .add_edge(named("known"), EdgeKind::To(NodeKey::End))
        .add_edge(named("unknown"), EdgeKind::To(NodeKey::End));
    assert_eq!(graph.check(), Ok(()));
    let mut state = State::new();
    let (ran, outcome) = drive(&graph, &mut state);
    assert!(ran.is_empty());
    assert_eq!(runs.get(), 0);
    assert!(matches!(
        outcome,
        Err(RunError::GraphError(GraphError::UndefinedNode(key))) if key == named("unknown")
    ));
}

#[test]
fn a_completed_step_without_edges_fails_the_run() {
    let graph: Graph<Step, Kind> = Graph::new();
    let mut run = Scheduler::start();
    let started = run.on_completion(&graph, &NodeKey::Start, Ok(()), &vec![]);
    assert!(started.is_empty());
    assert!(run.is_quiescent());
    assert!(run.has_failed());
    assert!(matches!(
        run.finish(),
        Err(RunError::GraphError(GraphError::MissingOutEdge(NodeKey::Start)))
    ));
}

#[test]
fn the_scheduler_keeps_count_of_the_steps_in_flight() {
    let mut graph: Graph<u8, EdgeKind<(), ()>> = Graph::new();
    graph
        .add_node(named("a"), 1)
        .add_node(named("b"), 2)
        .add_edge(
            NodeKey::Start,
            EdgeKind::ToAll(KeySet::from_vec(vec![named("a"), named("b"), NodeKey::End])),
        )
        .add_edge(named("a"), EdgeKind::To(NodeKey::End))
        .add_edge(named("b"), EdgeKind::To(named("a")));
    let mut run = Scheduler::start();
    assert_eq!(run.in_flight(), 1);
    assert!(!run.is_quiescent());
    let started = run.on_completion(&graph, &NodeKey::Start, Ok(()), &vec![]);
    assert_eq!(started, vec![named("a"), named("b")]);
    assert_eq!(run.in_flight(), 2);
    let started = run.on_completion(&graph, &named("b"), Ok(()), &vec![vec![]]);
    assert_eq!(started, vec![named("a")]);
    assert_eq!(run.in_flight(), 2);
    let started = run.on_completion(&graph, &named("a"), Ok(()), &vec![]);
    assert!(started.is_empty());
    assert_eq!(run.in_flight(), 1);
    let started = run.on_completion(&graph, &named("a"), Ok(()), &vec![]);
    assert!(started.is_empty());
    assert!(run.is_quiescent());
    assert!(!run.has_failed());
    assert!(run.finish().is_ok());
}

#[test]
fn the_graph_resolves_the_edges_of_a_step_to_one_set() {
    let mut graph: Graph<u8, EdgeKind<(), ()>> = Graph::new();
    let mut router = Router::new();
    router.insert("x".to_string(), named("a"));
    router.insert("y".to_string(), named("c"));
    graph
        .add_node(named("a"), 1)
        .add_edge(named("s"), EdgeKind::To(named("b")))
        .add_edge(named("s"), EdgeKind::Routed(EdgeFunction { f: (), router }));
    let next = graph
        .next_nodes(&named("s"), &vec![vec![], vec!["x".to_string()]])
        .unwrap();
    assert_eq!(next.len(), 2);
    assert!(next.contains(&named("a")));
    assert!(next.contains(&named("b")));
    let next = graph.next_nodes(&named("s"), &vec![]).unwrap();
    assert_eq!(next.len(), 1);
    assert!(matches!(
        graph.next_nodes(&named("t"), &vec![]),
        Err(RunError::GraphError(GraphError::MissingOutEdge(key))) if key == named("t")
    ));
    assert_eq!(
        graph.spawn_list(&KeySet::from_vec(vec![named("a"), NodeKey::End])),
        Ok(vec![named("a")])
    );
    assert_eq!(
        graph.spawn_list(&KeySet::from_vec(vec![named("a"), named("b")])),
        Err(GraphError::UndefinedNode(named("b")))
    );
}

#[test]
fn a_sequence_runs_its_steps_in_order_and_stops_at_the_first_failure() {
    let seen = Rc::new(Cell::new(0));
    let count = |seen: Rc<Cell<i32>>, add: i32, fail: bool| {
        move |by: &i32| -> Result<(), RunError> {
            seen.set(seen.get() * 10 + add * by);
            if fail {
                Err(RunError::GraphError(GraphError::UnreachableEndNode))
            } else {
                Ok(())
            }
        }
    };
    type Boxed = Box<dyn Fn(&i32) -> Result<(), RunError>>;
    let one: Boxed = Box::new(count(seen.clone(), 1, false));
    let two: Boxed = Box::new(count(seen.clone(), 2, false));
    let three: Boxed = Box::new(count(seen.clone(), 3, true));
    let four: Boxed = Box::new(count(seen.clone(), 4, false));
    let sequence = NodeSequence::new(vec![one]).followed_by(two);
    assert!(sequence.call(&1).is_ok());
    assert_eq!(seen.get(), 12);
    seen.set(0);
    let longer = sequence.then_sequence(NodeSequence::new(vec![three, four]));
    assert_eq!(longer.0.len(), 4);
    assert!(matches!(
        longer.call(&1),
        Err(RunError::GraphError(GraphError::UnreachableEndNode))
    ));
    assert_eq!(seen.get(), 123);
}

#[test]
fn a_function_step_calls_its_function() {
    let double = NodeFunction(|n: i32| n * 2);
    assert_eq!(double.call(21), 42);
}

#[test]
fn values_and_lists_are_promoted_to_sets() {
    let set: KeySet = <NodeKey as IntoSet<KeySet, ByInto>>::into_set(named("a"));
    assert_eq!(set.len(), 1);
    assert!(set.contains(&named("a")));
    let set: KeySet =
        <Vec<NodeKey> as IntoSet<KeySet, ByIntoIter>>::into_set(vec![named("a"), named("b"), named("a")]);
    assert_eq!(set.len(), 2);
    let values: Vec<String> = <&'static str as IntoSet<Vec<String>, ByInto>>::into_set("odd");
    assert_eq!(values, vec!["odd".to_string()]);
    let values: Vec<String> = <String as IntoSet<Vec<String>, ByInto>>::into_set("even".to_string());
    assert_eq!(values, vec!["even".to_string()]);
    let values: Vec<String> =
        <Vec<String> as IntoSet<Vec<String>, ByIntoIter>>::into_set(vec!["a".to_string(), "b".to_string()]);
    assert_eq!(values.len(), 2);
    let tried: Result<Vec<String>, RunError> =
        <&'static str as TryIntoSet<Vec<String>, ByOk<ByInto>>>::try_into_set("odd");
    assert_eq!(tried.ok(), Some(vec!["odd".to_string()]));
    let ok: Result<&'static str, RunError> = Ok("odd");
    let tried: Result<Vec<String>, RunError> =
        <Result<&'static str, RunError> as TryIntoSet<Vec<String>, ByResult<ByOk<ByInto>>>>::try_into_set(ok);
    assert_eq!(tried.ok(), Some(vec!["odd".to_string()]));
    let failed: Result<&'static str, RunError> = Err(RunError::GraphError(GraphError::PointToStart));
    let tried: Result<Vec<String>, RunError> =
        <Result<&'static str, RunError> as TryIntoSet<Vec<String>, ByResult<ByOk<ByInto>>>>::try_into_set(failed);
    assert!(matches!(tried, Err(RunError::GraphError(GraphError::PointToStart))));
}

#[test]
fn a_context_is_copied_with_its_collaborators() {
    let context = Context { state: vec![1, 2, 3] };
    let copy = context.clone();
    assert_eq!(copy.state, vec![1, 2, 3]);
    let empty: Context<Vec<i32>> = Context::default();
    assert!(empty.state.is_empty());
}

#[test]
fn a_failed_routing_function_fails_the_run_with_the_key_of_its_step() {
    let mut run = Scheduler::start();
    run.on_unresolved(&NodeKey::Start, RunError::GraphError(GraphError::PointToStart));
    assert!(run.is_quiescent());
    assert!(run.has_failed());
    match run.finish() {
        Err(RunError::ResolveNextNodesError { error, node_key }) => {
            assert_eq!(node_key, NodeKey::Start);
            assert!(matches!(*error, RunError::GraphError(GraphError::PointToStart)));
        }
        other => panic!("unexpected: {:?}", other),
    }
}

#[test]
fn the_first_failure_of_a_run_is_the_one_that_stays() {
    let mut graph: Graph<u8, EdgeKind<(), ()>> = Graph::new();
    graph
        .add_node(named("a"), 1)
        .add_node(named("b"), 2)
        .add_edge(NodeKey::Start, EdgeKind::ToAll(KeySet::from_vec(vec![named("a"), named("b")])))
        .add_edge(named("a"), EdgeKind::To(NodeKey::End))
        .add_edge(named("b"), EdgeKind::To(named("a")));
    let mut run = Scheduler::start();
    run.on_completion(&graph, &NodeKey::Start, Ok(()), &vec![]);
    let started = run.on_completion(
        &graph,
        &named("a"),
        Err(RunError::GraphError(GraphError::PointToStart)),
        &vec![],
    );
    assert!(started.is_empty());
    assert_eq!(run.in_flight(), 1);
    run.on_unresolved(&named("c"), RunError::GraphError(GraphError::UnreachableEndNode));
    assert_eq!(run.in_flight(), 1);
    let started = run.on_completion(&graph, &named("b"), Ok(()), &vec![]);
    assert!(started.is_empty());
    assert!(run.is_quiescent());
    match run.finish() {
        Err(RunError::StepFailed { error, node_key }) => {
            assert_eq!(node_key, named("a"));
            assert!(matches!(*error, RunError::GraphError(GraphError::PointToStart)));
        }
        other => panic!("unexpected: {:?}", other),
    }
}

#[test]
fn a_request_carries_the_context_and_the_state() {
    let context = Context { state: 5u8 };
    let request = context.new_request("handle".to_string());
    assert_eq!(request.context.state, 5);
    assert_eq!(request.state, "handle");
    let copy = request.clone();
    assert_eq!(copy.context.state, 5);
    assert_eq!(copy.state, "handle");
}

#[test]
fn a_task_that_could_not_be_joined_fails_the_run_as_its_step() {
    let runtime = tokio::runtime::Builder::new_current_thread().build().unwrap();
    let handle = runtime.spawn(std::future::pending::<()>());
    handle.abort();
    let lost = runtime.block_on(handle).unwrap_err();
    assert!(lost.is_cancelled());
    let mut graph: Graph<u8, EdgeKind<(), ()>> = Graph::new();
    graph.add_edge(NodeKey::Start, EdgeKind::To(NodeKey::End));
    let mut run = Scheduler::start();
    let outcome: Result<(), RunError> = Err(RunError::TokioJoinError(lost));
    assert!(!run.wants_routing(&outcome));
    let started = run.on_completion(&graph, &NodeKey::Start, outcome, &vec![]);
    assert!(started.is_empty());
    match run.finish() {
        Err(RunError::StepFailed { error, node_key }) => {
            assert_eq!(node_key, NodeKey::Start);
            assert!(matches!(*error, RunError::TokioJoinError(_)));
        }
        other => panic!("unexpected: {:?}", other),
    }
}
