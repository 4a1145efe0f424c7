use unit_graph::graph::{build_unit_graph, Graph};
use unit_graph::error::QueryError;
use unit_graph::transform::{Fact, Query, Transform};

fn arithmetic(value: f32, step: Transform<f32>) -> f32 {
    match step {
        Transform::Multiply(factor) => value * factor,
        Transform::Divide(factor) => value / factor,
    }
}

fn lengths() -> Graph<f32> {
    let facts: Vec<Fact<f32>> = vec![
        ("m", 3.28, "ft"),
        ("ft", 12.0, "in"),
        ("in", 0.0277778, "yard"),
    ];
    build_unit_graph(&facts)
}

fn close(found: f32, expected: f32) -> bool {
    (found - expected).abs() <= expected.abs() * 1e-5
}

#[test]
fn metres_to_inches() {
    let query: Query<f32> = (2.0, "m", "in");
    let found = lengths().query(&query, arithmetic).unwrap();
    assert_eq!(found, 2.0f32 * 3.28 * 12.0);
    assert!(close(found, 78.72));
}

#[test]
fn inches_to_metres() {
    let found = lengths().query(&(13.0, "in", "m"), arithmetic).unwrap();
    assert_eq!(found, 13.0f32 / 12.0 / 3.28);
    assert!((found - 0.3304).abs() < 5e-4);
}

#[test]
fn inches_to_feet() {
    let found = lengths().query(&(13.0, "in", "ft"), arithmetic).unwrap();
    assert_eq!(found, 13.0f32 / 12.0);
    assert!((found - 1.0833).abs() < 5e-4);
}

#[test]
fn yards_to_metres_through_the_whole_chain() {
    let found = lengths().query(&(5.0, "yard", "m"), arithmetic).unwrap();
    assert_eq!(found, 5.0f32 / 0.0277778 / 12.0 / 3.28);
    assert!(close(found, 4.573_167));
}

#[test]
fn metres_to_kilograms_has_no_answer() {
    assert_eq!(lengths().query(&(5.0, "m", "kg"), arithmetic), None);
}

#[test]
fn unknown_source_has_no_answer() {
    assert_eq!(lengths().query(&(5.0, "kg", "m"), arithmetic), None);
    assert_eq!(lengths().query(&(5.0, "kg", "kg"), arithmetic), None);
}

#[test]
fn direct_fact_multiplies_forward_and_divides_backward() {
    let graph = lengths();
    assert_eq!(graph.query(&(7.0, "m", "ft"), arithmetic), Some(7.0f32 * 3.28));
    assert_eq!(graph.query(&(7.0, "ft", "m"), arithmetic), Some(7.0f32 / 3.28));
    assert_eq!(graph.query(&(7.0, "in", "yard"), arithmetic), Some(7.0f32 * 0.0277778));
    assert_eq!(graph.query(&(7.0, "yard", "in"), arithmetic), Some(7.0f32 / 0.0277778));
}

#[test]
fn a_unit_converts_to_itself_unchanged() {
    let graph = lengths();
    for unit in ["m", "ft", "in", "yard"] {
        assert_eq!(graph.query(&(42.5, unit, unit), arithmetic), Some(42.5));
    }
    let odd = graph.query(&(f32::NAN, "m", "m"), arithmetic).unwrap();
    assert!(odd.is_nan());
}

#[test]
fn two_facts_compose() {
    let facts: Vec<Fact<f32>> = vec![("a", 2.5, "b"), ("b", 4.0, "c")];
    let graph = build_unit_graph(&facts);
    assert_eq!(graph.query(&(3.0, "a", "c"), arithmetic), Some(3.0f32 * 2.5 * 4.0));
    assert_eq!(graph.query(&(3.0, "c", "a"), arithmetic), Some(3.0f32 / 4.0 / 2.5));
}

#[test]
fn what_converts_one_way_converts_the_other_way() {
    let graph = lengths();
    let units = ["m", "ft", "in", "yard", "kg"];
    for a in units {
        for b in units {
            let forth = graph.query(&(1.0, a, b), arithmetic);
            let back = graph.query(&(1.0, b, a), arithmetic);
            assert_eq!(forth.is_some(), back.is_some());
        }
    }
}

#[test]
fn separate_components_do_not_convert() {
    let facts: Vec<Fact<f32>> = vec![
        ("m", 3.28, "ft"),
        ("ft", 12.0, "in"),
        ("hr", 60.0, "min"),
        ("min", 60.0, "sec"),
    ];
    let graph = build_unit_graph(&facts);
    assert_eq!(graph.query(&(1.0, "m", "sec"), arithmetic), None);
    assert_eq!(graph.query(&(1.0, "hr", "in"), arithmetic), None);
    assert_eq!(graph.query(&(1.0, "hr", "sec"), arithmetic), Some(3600.0));
    assert_eq!(graph.query(&(1.0, "m", "in"), arithmetic), Some(1.0f32 * 3.28 * 12.0));
}

#[test]
fn a_later_fact_for_the_same_pair_stands() {
    let facts: Vec<Fact<f32>> = vec![("a", 2.0, "b"), ("a", 5.0, "b")];
    let graph = build_unit_graph(&facts);
    assert_eq!(graph.query(&(1.0, "a", "b"), arithmetic), Some(5.0));
    assert_eq!(graph.query(&(10.0, "b", "a"), arithmetic), Some(2.0));
}

#[test]
fn a_later_fact_for_the_reversed_pair_stands() {
    let facts: Vec<Fact<f32>> = vec![("a", 2.0, "b"), ("b", 4.0, "a")];
    let graph = build_unit_graph(&facts);
    assert_eq!(graph.query(&(1.0, "b", "a"), arithmetic), Some(4.0));
    assert_eq!(graph.query(&(1.0, "a", "b"), arithmetic), Some(0.25));
}

#[test]
fn a_fact_from_a_unit_to_itself_changes_no_conversion() {
    let facts: Vec<Fact<f32>> = vec![("a", 2.0, "a"), ("a", 3.0, "b")];
    let graph = build_unit_graph(&facts);
    assert_eq!(graph.query(&(1.0, "a", "a"), arithmetic), Some(1.0));
    assert_eq!(graph.query(&(1.0, "a", "b"), arithmetic), Some(3.0));
    let node = graph.dfs("a", "a").unwrap()[0];
    assert_eq!(node.transform_to("a"), Some(Transform::Divide(2.0)));
}

#[test]
fn a_zero_factor_is_taken_as_it_is() {
    let facts: Vec<Fact<f32>> = vec![("a", 0.0, "b")];
    let graph = build_unit_graph(&facts);
    assert_eq!(graph.query(&(3.0, "a", "b"), arithmetic), Some(0.0));
    assert_eq!(graph.query(&(3.0, "b", "a"), arithmetic), Some(f32::INFINITY));
}

#[test]
fn negative_and_nan_factors_are_taken_as_they_are() {
    let facts: Vec<Fact<f32>> = vec![("a", -2.0, "b"), ("b", f32::NAN, "c")];
    let graph = build_unit_graph(&facts);
    assert_eq!(graph.query(&(3.0, "a", "b"), arithmetic), Some(-6.0));
    assert!(graph.query(&(3.0, "a", "c"), arithmetic).unwrap().is_nan());
}

#[test]
fn no_facts_give_an_empty_graph() {
    let facts: Vec<Fact<f32>> = Vec::new();
    let graph = build_unit_graph(&facts);
    assert!(!graph.contains_unit("m"));
    assert_eq!(graph.query(&(1.0, "m", "m"), arithmetic), None);
    assert!(graph.dfs("m", "ft").is_none());
}

#[test]
fn the_graph_knows_the_units_that_facts_mention() {
    let graph = lengths();
    assert!(graph.contains_unit("m"));
    assert!(graph.contains_unit("ft"));
    assert!(graph.contains_unit("in"));
    assert!(graph.contains_unit("yard"));
    assert!(!graph.contains_unit("kg"));
    assert!(!graph.contains_unit(""));
    assert!(!graph.contains_unit("M"));
}

#[test]
fn the_graph_can_be_queried_many_times() {
    let graph = lengths();
    let first = graph.query(&(2.0, "m", "in"), arithmetic);
    let again = graph.query(&(2.0, "m", "in"), arithmetic);
    assert_eq!(first, again);
    assert_eq!(graph.query(&(13.0, "in", "ft"), arithmetic), Some(13.0f32 / 12.0));
}

#[test]
fn an_unknown_unit_is_told_apart_from_a_missing_path() {
    let facts: Vec<Fact<f32>> = vec![("m", 3.28, "ft"), ("hr", 60.0, "min")];
    let graph = build_unit_graph(&facts);
    assert_eq!(graph.try_query(&(1.0, "m", "kg"), arithmetic), Err(QueryError::UnitNotFound));
    assert_eq!(graph.try_query(&(1.0, "kg", "m"), arithmetic), Err(QueryError::UnitNotFound));
    assert_eq!(graph.try_query(&(1.0, "kg", "kg"), arithmetic), Err(QueryError::UnitNotFound));
    assert_eq!(graph.try_query(&(1.0, "m", "min"), arithmetic), Err(QueryError::NoPath));
    assert_eq!(graph.try_query(&(1.0, "min", "ft"), arithmetic), Err(QueryError::NoPath));
    assert_eq!(graph.try_query(&(2.0, "m", "ft"), arithmetic), Ok(2.0f32 * 3.28));
    assert_eq!(graph.try_query(&(2.0, "min", "hr"), arithmetic), Ok(2.0f32 / 60.0));
    assert_eq!(graph.try_query(&(2.0, "hr", "hr"), arithmetic), Ok(2.0));
}

#[test]
fn both_queries_agree_where_there_is_an_answer() {
    let graph = lengths();
    let units = ["m", "ft", "in", "yard", "kg"];
    for a in units {
        for b in units {
            let plain = graph.query(&(3.5, a, b), arithmetic);
            let explained = graph.try_query(&(3.5, a, b), arithmetic);
            assert_eq!(plain, explained.ok());
        }
    }
}
