use unit_graph::graph::{build_unit_graph, Graph, GraphNode};
use unit_graph::transform::{Fact, Transform};

fn units(path: &std::collections::VecDeque<&GraphNode<i64>>) -> Vec<String> {
    path.iter().map(|node| node.unit().to_string()).collect()
}

fn chain(graph: &Graph<i64>, from: &str, to: &str) -> Option<Vec<Transform<i64>>> {
    let path = graph.dfs(from, to)?;
    let mut steps = Vec::new();
    for k in 0..path.len() - 1 {
        steps.push(path[k].transform_to(path[k + 1].unit()).unwrap());
    }
    Some(steps)
}

fn line() -> Graph<i64> {
    let facts: Vec<Fact<i64>> = vec![("m", 3, "ft"), ("ft", 12, "in"), ("in", 7, "yard")];
    build_unit_graph(&facts)
}

fn triangle() -> Graph<i64> {
    let facts: Vec<Fact<i64>> = vec![("a", 2, "b"), ("b", 3, "c"), ("c", 5, "a")];
    build_unit_graph(&facts)
}

#[test]
fn the_path_runs_from_source_to_target() {
    let graph = line();
    assert_eq!(units(&graph.dfs("m", "in").unwrap()), ["m", "ft", "in"]);
    assert_eq!(units(&graph.dfs("yard", "m").unwrap()), ["yard", "in", "ft", "m"]);
    assert_eq!(units(&graph.dfs("in", "ft").unwrap()), ["in", "ft"]);
}

#[test]
fn the_path_of_a_unit_to_itself_is_that_unit() {
    let graph = line();
    assert_eq!(units(&graph.dfs("ft", "ft").unwrap()), ["ft"]);
}

#[test]
fn there_is_no_path_from_or_to_an_unknown_unit() {
    let graph = line();
    assert!(graph.dfs("m", "kg").is_none());
    assert!(graph.dfs("kg", "m").is_none());
    assert!(graph.dfs("kg", "kg").is_none());
}

#[test]
fn the_chain_follows_the_path_in_order() {
    let graph = line();
    assert_eq!(
        chain(&graph, "m", "yard"),
        Some(vec![Transform::Multiply(3), Transform::Multiply(12), Transform::Multiply(7)])
    );
    assert_eq!(
        chain(&graph, "yard", "m"),
        Some(vec![Transform::Divide(7), Transform::Divide(12), Transform::Divide(3)])
    );
    assert_eq!(chain(&graph, "in", "in"), Some(vec![]));
}

#[test]
fn neighbours_in_a_cycle_are_joined_by_their_own_edge() {
    let graph = triangle();
    assert_eq!(units(&graph.dfs("a", "b").unwrap()), ["a", "b"]);
    assert_eq!(units(&graph.dfs("a", "c").unwrap()), ["a", "c"]);
    assert_eq!(units(&graph.dfs("c", "b").unwrap()), ["c", "b"]);
    assert_eq!(chain(&graph, "a", "c"), Some(vec![Transform::Divide(5)]));
    assert_eq!(chain(&graph, "c", "a"), Some(vec![Transform::Multiply(5)]));
}

#[test]
fn a_path_in_a_graph_with_cycles_passes_no_unit_twice() {
    let facts: Vec<Fact<i64>> = vec![
        ("a", 2, "b"),
        ("b", 3, "c"),
        ("c", 5, "a"),
        ("c", 7, "d"),
        ("d", 11, "e"),
        ("e", 13, "b"),
        ("e", 17, "f"),
    ];
    let graph = build_unit_graph(&facts);
    let names = ["a", "b", "c", "d", "e", "f"];
    for from in names {
        for to in names {
            let path = units(&graph.dfs(from, to).unwrap());
            assert_eq!(path[0], from);
            assert_eq!(path[path.len() - 1], to);
            for k in 0..path.len() {
                for l in k + 1..path.len() {
                    assert_ne!(path[k], path[l]);
                }
            }
            for k in 0..path.len() - 1 {
                let node = graph.dfs(&path[k], &path[k]).unwrap()[0];
                assert!(node.transform_to(&path[k + 1]).is_some());
            }
        }
    }
}

#[test]
fn a_node_knows_its_unit_and_its_edges() {
    let graph = line();
    let path = graph.dfs("ft", "ft").unwrap();
    let node = path[0];
    assert_eq!(node.unit(), "ft");
    assert_eq!(node.transform_to("in"), Some(Transform::Multiply(12)));
    assert_eq!(node.transform_to("m"), Some(Transform::Divide(3)));
    assert_eq!(node.transform_to("yard"), None);
    assert_eq!(node.transform_to("ft"), None);
}

#[test]
fn a_unit_named_by_several_facts_keeps_one_node_with_all_edges() {
    let facts: Vec<Fact<i64>> = vec![("hub", 2, "a"), ("b", 3, "hub"), ("hub", 5, "c")];
    let graph = build_unit_graph(&facts);
    let node = graph.dfs("hub", "hub").unwrap()[0];
    assert_eq!(node.transform_to("a"), Some(Transform::Multiply(2)));
    assert_eq!(node.transform_to("b"), Some(Transform::Divide(3)));
    assert_eq!(node.transform_to("c"), Some(Transform::Multiply(5)));
    assert_eq!(chain(&graph, "a", "c"), Some(vec![Transform::Divide(2), Transform::Multiply(5)]));
}

#[test]
fn a_new_node_has_no_edges() {
    let node: GraphNode<i64> = GraphNode::new("m");
    assert_eq!(node.unit(), "m");
    assert_eq!(node.transform_to("ft"), None);
}

#[test]
fn query_threads_the_value_through_the_chain_in_order() {
    let graph = line();
    let record = |so_far: i64, step: Transform<i64>| match step {
        Transform::Multiply(f) => so_far * 100 + f,
        Transform::Divide(f) => so_far * 100 - f,
    };
    assert_eq!(graph.query(&(1, "m", "yard"), record), Some(1_03_12_07));
    assert_eq!(graph.query(&(1, "m", "m"), record), Some(1));
    assert_eq!(graph.query(&(1, "in", "m"), record), Some((100 - 12) * 100 - 3));
    assert_eq!(graph.query(&(1, "m", "kg"), record), None);
}

#[test]
fn nodes_are_equal_when_their_units_are() {
    let graph = line();
    let other = triangle();
    let ft = graph.dfs("ft", "ft").unwrap()[0];
    let inch = graph.dfs("in", "in").unwrap()[0];
    let bare: GraphNode<i64> = GraphNode::new("ft");
    assert!(*ft == bare);
    assert!(*ft != *inch);
    assert!(*other.dfs("a", "a").unwrap()[0] == GraphNode::new("a"));
    assert!(*ft == *graph.dfs("m", "in").unwrap()[1]);
}
