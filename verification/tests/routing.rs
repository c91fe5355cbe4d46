use crabgraph::edge::{Edge, EdgeFunction, Router};
use crabgraph::keys::KeySet;
use crabgraph::node::NodeKey;
use crabgraph::{GraphError, RunError};

fn named(name: &'static str) -> NodeKey {
    NodeKey::const_new(name)
}

fn table() -> Router {
    let mut router = Router::new();
    router.insert("loop".to_string(), named("step"));
    router.insert("done".to_string(), NodeKey::End);
    router
}

fn values(list: &[&str]) -> Vec<String> {
    list.iter().map(|value| value.to_string()).collect()
}

#[test]
fn a_table_gives_the_destination_of_each_value() {
    let router = table();
    assert_eq!(router.len(), 2);
    assert_eq!(router.get(&"loop".to_string()), Some(&named("step")));
    assert_eq!(router.get(&"done".to_string()), Some(&NodeKey::End));
    assert_eq!(router.get(&"other".to_string()), None);
}

#[test]
fn a_later_entry_replaces_an_earlier_one() {
    let mut router = table();
    router.insert("loop".to_string(), named("other"));
    assert_eq!(router.len(), 2);
    assert_eq!(router.get(&"loop".to_string()), Some(&named("other")));
    assert_eq!(router.get(&"done".to_string()), Some(&NodeKey::End));
}

#[test]
fn one_value_resolves_to_one_destination() {
    let next = table().resolve(&values(&["loop"])).unwrap();
    assert_eq!(next.len(), 1);
    assert!(next.contains(&named("step")));
}

#[test]
fn several_values_fan_out() {
    let next = table().resolve(&values(&["done", "loop", "done"])).unwrap();
    assert_eq!(next.len(), 2);
    assert!(next.contains(&named("step")));
    assert!(next.contains(&NodeKey::End));
}

#[test]
fn no_value_resolves_to_no_destination() {
    let next = table().resolve(&values(&[])).unwrap();
    assert!(next.is_empty());
}

#[test]
fn an_absent_value_fails_the_edge_and_is_named() {
    let failed = table().resolve(&values(&["loop", "nowhere", "neither"]));
    assert_eq!(failed.err(), Some(GraphError::UndefinedRoute("\"nowhere\"".to_string())));
}

#[test]
fn a_function_edge_resolves_what_its_function_returns() {
    let edge = EdgeFunction {
        f: |n: &i64| -> Result<Vec<String>, RunError> {
            Ok(vec![if *n < 3 { "loop".to_string() } else { "done".to_string() }])
        },
        router: table(),
    };
    let next = edge.next_nodes(&0).unwrap();
    assert!(next.contains(&named("step")));
    assert_eq!(next.len(), 1);
    let next = edge.next_nodes(&3).unwrap();
    assert!(next.contains(&NodeKey::End));
    assert_eq!(next.len(), 1);
}

#[test]
fn a_function_edge_fails_on_a_value_outside_its_table() {
    let edge = EdgeFunction {
        f: |_: &i64| -> Result<Vec<String>, RunError> { Ok(vec!["lost".to_string()]) },
        router: table(),
    };
    match edge.next_nodes(&0) {
        Err(RunError::GraphError(GraphError::UndefinedRoute(name))) => {
            assert_eq!(name, "\"lost\"")
        }
        other => panic!("unexpected: {:?}", other.map(|set| set.len())),
    }
}

#[test]
fn a_function_edge_hands_on_the_failure_of_its_function() {
    let edge = EdgeFunction {
        f: |_: &i64| -> Result<Vec<String>, RunError> {
            Err(RunError::GraphError(GraphError::PointToStart))
        },
        router: table(),
    };
    assert!(matches!(
        edge.next_nodes(&0),
        Err(RunError::GraphError(GraphError::PointToStart))
    ));
}

#[test]
fn a_fixed_edge_resolves_to_itself_whatever_was_routed() {
    let next = named("a").resolve(&values(&["ignored"])).unwrap();
    assert_eq!(next.len(), 1);
    assert!(next.contains(&named("a")));
    let set = KeySet::from_vec(vec![named("a"), named("b")]);
    let next = set.resolve(&values(&[])).unwrap();
    assert_eq!(next.len(), 2);
    assert!(next.contains(&named("a")));
    assert!(next.contains(&named("b")));
}

#[test]
fn a_key_set_holds_each_key_once() {
    let mut set = KeySet::new();
    assert!(set.is_empty());
    assert!(set.insert(named("a")));
    assert!(!set.insert(named("a")));
    assert!(set.insert(NodeKey::Start));
    assert_eq!(set.len(), 2);
    assert_eq!(set.get(0), &named("a"));
    assert_eq!(set.get(1), &NodeKey::Start);
    assert!(set.contains(&NodeKey::Start));
    assert!(!set.contains(&NodeKey::End));
    let mut other = KeySet::single(NodeKey::End);
    other.extend(&set);
    assert_eq!(other.len(), 3);
    assert!(other.contains(&named("a")));
    let copy = other.duplicate();
    assert_eq!(copy.len(), 3);
    assert_eq!(copy.get(0), &NodeKey::End);
}

#[test]
fn a_key_is_shown_by_its_name_or_its_sentinel() {
    assert_eq!(&*named("work"), "work");
    assert_eq!(&*NodeKey::Start, "@start");
    assert_eq!(&*NodeKey::End, "@end");
    assert_eq!(named("work").to_text(), "work");
    assert_eq!(NodeKey::from("work"), named("work"));
    assert_eq!(NodeKey::from("work".to_string()), named("work"));
    assert!(named("work").same(&NodeKey::Named("work".to_string())));
    assert!(!named("work").same(&named("rest")));
    assert!(!named("@end").same(&NodeKey::End));
    assert!(NodeKey::End.is_end());
    assert!(!NodeKey::Start.is_end());
    assert!(NodeKey::Start.is_start());
    assert_eq!(named("work").clone(), named("work"));
}
