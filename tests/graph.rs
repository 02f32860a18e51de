use graph_store::graph::{node_id, Graph, GraphError};
use graph_store::value::{Fields, Value};

fn node(id: &str) -> Fields {
    let mut f = Fields::new();
    f.insert("id".to_string(), Value::Text(id.to_string()));
    f
}

fn node_with(id: &str, key: &str, v: Value) -> Fields {
    let mut f = node(id);
    f.insert(key.to_string(), v);
    f
}

fn ids(nodes: &[Fields]) -> Vec<String> {
    nodes.iter().map(|n| node_id(n).unwrap()).collect()
}

fn kind(k: &str) -> String {
    k.to_string()
}

#[test]
fn duplicate_identifier_is_refused() {
    let mut g = Graph::new();
    assert!(g.add_node(node_with("a", "x", Value::Bool(true))).unwrap().same_as(&node_with("a", "x", Value::Bool(true))));
    assert_eq!(g.add_node(node_with("a", "y", Value::Null)).unwrap_err(), GraphError::DuplicateIdentifier);
    let stored = g.get_node(&"a".to_string()).unwrap();
    assert!(stored.same_as(&node_with("a", "x", Value::Bool(true))));
    assert_eq!(g.traverse(Some(&node("a")), None).len(), 1);
}

#[test]
fn node_without_identifier_is_refused() {
    let mut g = Graph::new();
    let mut f = Fields::new();
    f.insert("name".to_string(), Value::Text("x".to_string()));
    assert_eq!(g.add_node(f).unwrap_err(), GraphError::MissingIdentifier);
    let mut numeric = Fields::new();
    numeric.insert("id".to_string(), Value::Number(7));
    assert_eq!(g.add_node(numeric).unwrap_err(), GraphError::MissingIdentifier);
    assert_eq!(g.set_root_node(&Fields::new()), Err(GraphError::MissingIdentifier));
}

#[test]
fn added_node_round_trips() {
    let mut g = Graph::new();
    let mut inner = Fields::new();
    inner.insert("k".to_string(), Value::Array(vec![Value::Number(1), Value::Undefined]));
    let n = node_with("n", "data", Value::Object(inner));
    let copy = n.duplicate();
    g.add_node(n).unwrap();
    let got = g.get_node(&"n".to_string()).unwrap();
    assert!(got.same_as(&copy));
    assert!(g.get_node(&"m".to_string()).is_none());
}

#[test]
fn removal_by_id_cascades_to_edges() {
    let mut g = Graph::new();
    for id in ["a", "b", "c"] {
        g.add_node(node(id)).unwrap();
    }
    g.add_edge("a".to_string(), "b".to_string(), None).unwrap();
    g.add_edge("c".to_string(), "a".to_string(), None).unwrap();
    let removed = g.remove_by_id(&"a".to_string()).unwrap();
    assert!(removed.same_as(&node("a")));
    assert!(g.get_node(&"a".to_string()).is_none());
    assert_eq!(ids(&g.traverse(Some(&node("c")), None)), vec!["c"]);
    g.add_node(node("a")).unwrap();
    assert_eq!(ids(&g.traverse(Some(&node("a")), None)), vec!["a"]);
    assert!(g.remove_by_id(&"zz".to_string()).is_none());
}

#[test]
fn removal_by_value_needs_equal_data() {
    let mut g = Graph::new();
    g.add_node(node_with("a", "x", Value::Number(1))).unwrap();
    g.add_node(node("b")).unwrap();
    g.add_edge("b".to_string(), "a".to_string(), Some(kind("k"))).unwrap();
    assert!(g.remove_node(&node_with("a", "x", Value::Number(2))).is_none());
    assert!(g.get_node(&"a".to_string()).is_some());
    assert!(g.remove_node(&node_with("a", "x", Value::Number(1))).is_some());
    assert!(g.get_node(&"a".to_string()).is_none());
    assert_eq!(ids(&g.traverse(Some(&node("b")), None)), vec!["b"]);
}

#[test]
fn traversal_terminates_on_cycle() {
    let mut g = Graph::new();
    g.add_node(node("A")).unwrap();
    g.add_node(node("B")).unwrap();
    g.add_edge("A".to_string(), "B".to_string(), None).unwrap();
    g.add_edge("B".to_string(), "A".to_string(), None).unwrap();
    assert_eq!(ids(&g.traverse(Some(&node("A")), None)), vec!["A", "B"]);
}

#[test]
fn traversal_filters_by_edge_type() {
    let mut g = Graph::new();
    for id in ["A", "B", "C"] {
        g.add_node(node(id)).unwrap();
    }
    g.add_edge("A".to_string(), "B".to_string(), Some(kind("friend"))).unwrap();
    g.add_edge("A".to_string(), "C".to_string(), Some(kind("block"))).unwrap();
    let friend = kind("friend");
    assert_eq!(ids(&g.traverse(Some(&node("A")), Some(&friend))), vec!["A", "B"]);
    assert_eq!(ids(&g.traverse(Some(&node("A")), None)), vec!["A", "B", "C"]);
}

#[test]
fn untyped_edges_are_their_own_type() {
    let mut g = Graph::new();
    g.add_node(node("A")).unwrap();
    g.add_node(node("B")).unwrap();
    g.add_edge("A".to_string(), "B".to_string(), None).unwrap();
    let friend = kind("friend");
    assert_eq!(ids(&g.traverse(Some(&node("A")), Some(&friend))), vec!["A"]);
}

#[test]
fn traversal_falls_back_to_root() {
    let mut g = Graph::new();
    for id in ["r", "s", "t"] {
        g.add_node(node(id)).unwrap();
    }
    g.add_edge("r".to_string(), "s".to_string(), None).unwrap();
    g.set_root_node(&node("r")).unwrap();
    let from_root = ids(&g.traverse(None, None));
    assert_eq!(from_root, ids(&g.traverse(Some(&node("r")), None)));
    assert_eq!(from_root, vec!["r", "s"]);
}

#[test]
fn unknown_start_visits_nothing() {
    let mut g = Graph::new();
    g.add_node(node("a")).unwrap();
    assert!(g.traverse(Some(&node("zz")), None).is_empty());
    assert!(g.traverse(None, None).is_empty());
    g.set_root_node(&node("gone")).unwrap();
    assert!(g.traverse(None, None).is_empty());
}

#[test]
fn stale_root_visits_nothing() {
    let mut g = Graph::new();
    g.add_node(node("a")).unwrap();
    g.set_root_node(&node("a")).unwrap();
    g.remove_by_id(&"a".to_string()).unwrap();
    assert!(g.traverse(None, None).is_empty());
}

#[test]
fn end_to_end_visit_order() {
    let mut g = Graph::new();
    for id in ["a", "b", "c"] {
        g.add_node(node(id)).unwrap();
    }
    g.add_edge("a".to_string(), "b".to_string(), Some(kind("knows"))).unwrap();
    g.add_edge("b".to_string(), "c".to_string(), Some(kind("knows"))).unwrap();
    g.set_root_node(&node("a")).unwrap();
    let knows = kind("knows");
    assert_eq!(ids(&g.traverse(None, Some(&knows))), vec!["a", "b", "c"]);
}

#[test]
fn breadth_first_layers() {
    let mut g = Graph::new();
    for id in ["a", "b", "c", "d"] {
        g.add_node(node(id)).unwrap();
    }
    g.add_edge("a".to_string(), "b".to_string(), None).unwrap();
    g.add_edge("b".to_string(), "d".to_string(), None).unwrap();
    g.add_edge("a".to_string(), "c".to_string(), None).unwrap();
    g.add_edge("a".to_string(), "zz".to_string(), None).unwrap();
    assert_eq!(ids(&g.traverse(Some(&node("a")), None)), vec!["a", "b", "c", "d"]);
}

#[test]
fn edges_are_a_set_and_need_identifiers() {
    let mut g = Graph::new();
    g.add_node(node("a")).unwrap();
    g.add_node(node("b")).unwrap();
    assert_eq!(g.add_edge("a".to_string(), "b".to_string(), None), Ok(()));
    assert_eq!(g.add_edge("a".to_string(), "b".to_string(), None), Ok(()));
    assert_eq!(g.add_edge(String::new(), "b".to_string(), None), Err(GraphError::InvalidEdge));
    assert_eq!(g.add_edge("a".to_string(), String::new(), None), Err(GraphError::InvalidEdge));
    assert_eq!(ids(&g.traverse(Some(&node("a")), None)), vec!["a", "b"]);
}

#[test]
fn traversal_returns_stored_data() {
    let mut g = Graph::new();
    g.add_node(node_with("a", "w", Value::Text("x".to_string()))).unwrap();
    let stale = node("a");
    let visited = g.traverse(Some(&stale), None);
    assert_eq!(visited.len(), 1);
    assert!(visited[0].same_as(&node_with("a", "w", Value::Text("x".to_string()))));
}

#[test]
fn field_order_does_not_matter() {
    let mut a = Fields::new();
    a.insert("x".to_string(), Value::Number(1));
    a.insert("y".to_string(), Value::Bool(false));
    let mut b = Fields::new();
    b.insert("y".to_string(), Value::Bool(false));
    b.insert("x".to_string(), Value::Number(1));
    assert!(a.same_as(&b));
    b.insert("x".to_string(), Value::Number(2));
    assert!(!a.same_as(&b));
    assert_eq!(b.len(), 2);
    assert!(matches!(b.get(&"x".to_string()), Some(Value::Number(2))));
}

#[test]
fn values_compare_deeply() {
    let a = Value::Array(vec![Value::Null, Value::Text("s".to_string())]);
    assert!(a.same_as(&a.duplicate()));
    assert!(!a.same_as(&Value::Array(vec![Value::Null])));
    assert!(!a.same_as(&Value::Array(vec![Value::Undefined, Value::Text("s".to_string())])));
    assert!(!Value::Null.same_as(&Value::Undefined));
}

#[test]
fn node_id_reads_identifier_field() {
    assert_eq!(node_id(&node("abc")), Ok("abc".to_string()));
    assert_eq!(node_id(&Fields::new()), Err(GraphError::MissingIdentifier));
}
