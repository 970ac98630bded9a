use microde::{DependencyGraph, ModuleInstanceId};

fn ids(values: &[&str]) -> Vec<ModuleInstanceId> {
    values.iter().map(|value| ModuleInstanceId::new(value)).collect()
}

#[test]
fn orders_empty_and_unrelated_graphs_deterministically() {
    assert_eq!(DependencyGraph::new(vec![]).order().unwrap(), vec![]);
    assert_eq!(
        DependencyGraph::new(ids(&["z", "a", "m"])).order().unwrap(),
        ids(&["a", "m", "z"])
    );
}

#[test]
fn orders_a_diamond_dependency_first() {
    let mut graph = DependencyGraph::new(ids(&["a", "b", "c", "d"]));
    graph.add_dependency("a", "b").unwrap();
    graph.add_dependency("a", "c").unwrap();
    graph.add_dependency("b", "d").unwrap();
    graph.add_dependency("c", "d").unwrap();
    assert_eq!(graph.order().unwrap(), ids(&["d", "b", "c", "a"]));
}

#[test]
fn rejects_unknown_nodes_and_cycles_with_stable_diagnostics() {
    let mut graph = DependencyGraph::new(ids(&["a", "b", "c"]));
    assert_eq!(
        graph.add_dependency("missing", "a").unwrap_err().to_string(),
        "unknown module instance ID 'missing'"
    );
    assert_eq!(
        graph.add_dependency("a", "missing").unwrap_err().to_string(),
        "unknown module instance ID 'missing'"
    );
    graph.add_dependency("a", "b").unwrap();
    graph.add_dependency("b", "c").unwrap();
    graph.add_dependency("c", "a").unwrap();
    assert_eq!(
        graph.order().unwrap_err().to_string(),
        "dependency cycle detected: a -> b -> c -> a"
    );
}

#[test]
fn rejects_self_dependencies() {
    let mut graph = DependencyGraph::new(ids(&["worker"]));
    graph.add_dependency("worker", "worker").unwrap();
    assert_eq!(
        graph.order().unwrap_err().to_string(),
        "dependency cycle detected: worker -> worker"
    );
}

#[test]
fn repeated_identifiers_and_repeated_edges_count_once() {
    let mut graph = DependencyGraph::new(ids(&["b", "a", "b"]));
    graph.add_dependency("a", "b").unwrap();
    graph.add_dependency("a", "b").unwrap();
    assert_eq!(graph.order().unwrap(), ids(&["b", "a"]));
}

#[test]
fn every_node_follows_its_dependencies() {
    let mut graph = DependencyGraph::new(ids(&["web", "db", "cache", "queue"]));
    graph.add_dependency("web", "cache").unwrap();
    graph.add_dependency("cache", "db").unwrap();
    graph.add_dependency("queue", "db").unwrap();
    assert_eq!(graph.order().unwrap(), ids(&["db", "cache", "queue", "web"]));
}

#[test]
fn a_cycle_is_reported_from_the_first_node_that_reaches_it() {
    let mut graph = DependencyGraph::new(ids(&["a", "b", "c"]));
    graph.add_dependency("a", "c").unwrap();
    graph.add_dependency("c", "b").unwrap();
    graph.add_dependency("b", "c").unwrap();
    assert_eq!(
        graph.order().unwrap_err().to_string(),
        "dependency cycle detected: c -> b -> c"
    );
}
