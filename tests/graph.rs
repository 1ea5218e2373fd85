use conversion_wiz::error::ConversionError;
use conversion_wiz::graph::{ConversionGraph, FactorShape};

fn shape(scale: f64, offset: f64) -> FactorShape {
    FactorShape {
        scale_is_zero: scale == 0.0,
        scale_is_one: scale == 1.0,
        offset_is_zero: offset == 0.0,
    }
}

#[test]
fn test_conversion_graph_add_unit_valid() {
    let mut graph = ConversionGraph::new();
    assert!(graph.add_unit("Kelvin", vec!["K"], false).is_ok());
}

#[test]
fn test_conversion_graph_add_duplicate_unit() {
    let mut graph = ConversionGraph::new();
    let _ = graph.add_unit("Kelvin", vec!["K"], false);
    assert!(graph.add_unit("Kelvin", vec!["K"], false).is_err());
}

#[test]
fn test_conversion_graph_add_duplicate_alias() {
    let mut graph = ConversionGraph::new();
    let _ = graph.add_unit("Kelvin", vec!["K"], false);
    assert!(graph.add_unit("Rankine", vec!["K"], false).is_err());
}

#[test]
fn test_conversion_graph_add_edge_valid() {
    let mut graph = ConversionGraph::new();
    let _ = graph.add_unit("Kelvin", vec!["K"], false);
    let _ = graph.add_unit("Rankine", vec!["R"], false);
    assert!(graph.add_edge("K", "R", shape(1.8, 0.0), 0, 1).is_ok());
}

#[test]
fn test_conversion_graph_add_edge_zero_rate() {
    let mut graph = ConversionGraph::new();
    let _ = graph.add_unit("Kelvin", vec!["K"], false);
    let _ = graph.add_unit("Rankine", vec!["R"], false);
    assert!(graph.add_edge("K", "R", shape(0.0, 0.0), 0, 1).is_err());
}

#[test]
fn test_conversion_graph_nonexistent_route() {
    let mut graph = ConversionGraph::new();
    let _ = graph.add_unit("A", vec!["a"], false);
    let _ = graph.add_unit("C", vec!["c"], false);

    // No direct conversion edge between A and C
    let conversion_result = graph.conversion_path("A", "C");
    assert!(matches!(conversion_result, Err(ConversionError::ConversionPathNotFound(_, _))));
}

#[test]
fn duplicate_unit_error_names_the_unit() {
    let mut graph = ConversionGraph::new();
    graph.add_unit("Kelvin", vec!["K"], false).unwrap();
    match graph.add_unit("Kelvin", vec!["kelvins"], false) {
        Err(ConversionError::DuplicateUnit(name)) => assert_eq!(name, "Kelvin"),
        _ => panic!("expected DuplicateUnit"),
    }
    assert!(!graph.contains_unit("kelvins"));
}

#[test]
fn failed_registration_leaves_no_alias_behind() {
    let mut graph = ConversionGraph::new();
    graph.add_unit("Kelvin", vec!["K"], false).unwrap();
    match graph.add_unit("Rankine", vec!["R", "Ra", "K"], false) {
        Err(ConversionError::DuplicateAlias(alias)) => assert_eq!(alias, "K"),
        _ => panic!("expected DuplicateAlias"),
    }
    assert!(!graph.contains_unit("Rankine"));
    assert!(!graph.contains_unit("R"));
    assert!(!graph.contains_unit("Ra"));
    assert!(graph.add_unit("Rankine", vec!["R", "Ra"], false).is_ok());
    assert!(graph.contains_unit("Ra"));
}

#[test]
fn alias_equal_to_a_canonical_name_is_refused() {
    let mut graph = ConversionGraph::new();
    graph.add_unit("Kelvin", vec!["K"], false).unwrap();
    match graph.add_unit("Rankine", vec!["Kelvin"], false) {
        Err(ConversionError::DuplicateAlias(alias)) => assert_eq!(alias, "Kelvin"),
        _ => panic!("expected DuplicateAlias"),
    }
}

#[test]
fn alias_repeated_in_one_registration_is_refused() {
    let mut graph = ConversionGraph::new();
    match graph.add_unit("Rankine", vec!["R", "R"], false) {
        Err(ConversionError::DuplicateAlias(alias)) => assert_eq!(alias, "R"),
        _ => panic!("expected DuplicateAlias"),
    }
    assert!(!graph.contains_unit("Rankine"));
}

#[test]
fn registration_errors_come_in_order() {
    let mut graph = ConversionGraph::new();
    assert!(matches!(graph.add_unit("", vec![""], false), Err(ConversionError::EmptyUnitName)));
    graph.add_unit("Kelvin", vec!["K"], false).unwrap();
    assert!(matches!(
        graph.add_unit("Kelvin", vec![""], false),
        Err(ConversionError::DuplicateUnit(_))
    ));
    assert!(matches!(graph.add_unit("Rankine", vec!["K", ""], false), Err(ConversionError::EmptyAlias)));
}

#[test]
fn canonical_name_and_aliases_resolve() {
    let mut graph = ConversionGraph::new();
    graph.add_unit("Celsius", vec!["C", "degC"], false).unwrap();
    assert!(graph.contains_unit("Celsius"));
    assert!(graph.contains_unit("C"));
    assert!(graph.contains_unit("degC"));
    assert!(!graph.contains_unit("celsius"));
    assert!(!graph.contains_unit(""));
}

#[test]
fn edge_rule_errors() {
    let mut graph = ConversionGraph::new();
    graph.add_unit("Kelvin", vec!["K"], false).unwrap();
    graph.add_unit("Rankine", vec!["R"], false).unwrap();
    assert!(matches!(
        graph.add_edge("K", "R", shape(0.0, 5.0), 0, 1),
        Err(ConversionError::ConversionRateZero)
    ));
    assert!(matches!(
        graph.add_edge("K", "R", shape(1.8, 2.0), 0, 1),
        Err(ConversionError::ConversionRateBothValues)
    ));
    assert!(matches!(
        graph.add_edge("X", "Y", shape(2.0, 0.0), 0, 1),
        Err(ConversionError::UnitNotFound(ref t)) if t == "X"
    ));
    assert!(matches!(
        graph.add_edge("K", "Y", shape(2.0, 0.0), 0, 1),
        Err(ConversionError::UnitNotFound(ref t)) if t == "Y"
    ));
    assert!(graph.add_edge("K", "R", shape(1.0, 2.0), 0, 1).is_ok());
    assert!(graph.add_edge("K", "R", shape(3.0, 0.0), 2, 3).is_ok());
}

#[test]
fn factor_shape_check() {
    assert!(matches!(shape(0.0, 0.0).check(), Err(ConversionError::ConversionRateZero)));
    assert!(matches!(shape(2.0, 1.0).check(), Err(ConversionError::ConversionRateBothValues)));
    assert!(shape(1.0, 1.0).check().is_ok());
    assert!(shape(2.0, 0.0).check().is_ok());
    assert!(shape(1.0, 0.0).check().is_ok());
}

#[test]
fn path_to_the_same_unit_is_empty() {
    let mut graph = ConversionGraph::new();
    graph.add_unit("Kelvin", vec!["K"], false).unwrap();
    assert_eq!(graph.conversion_path("Kelvin", "K").unwrap(), Vec::<usize>::new());
}

#[test]
fn path_with_unknown_unit() {
    let mut graph = ConversionGraph::new();
    graph.add_unit("Kelvin", vec!["K"], false).unwrap();
    assert!(matches!(
        graph.conversion_path("Z", "K"),
        Err(ConversionError::UnitNotFound(ref t)) if t == "Z"
    ));
    assert!(matches!(
        graph.conversion_path("K", "Z"),
        Err(ConversionError::UnitNotFound(ref t)) if t == "Z"
    ));
}

#[test]
fn offset_edge_keys_in_both_directions() {
    let mut graph = ConversionGraph::new();
    graph.add_unit("Celsius", vec!["C"], false).unwrap();
    graph.add_unit("Kelvin", vec!["K"], false).unwrap();
    graph.add_edge("C", "K", shape(1.0, 273.15), 10, 11).unwrap();
    assert_eq!(graph.conversion_path("C", "K").unwrap(), vec![10]);
    assert_eq!(graph.conversion_path("K", "C").unwrap(), vec![11]);
}

#[test]
fn two_hop_path_keys_in_path_order() {
    let mut graph = ConversionGraph::new();
    graph.add_unit("A", vec!["a"], false).unwrap();
    graph.add_unit("B", vec!["b"], false).unwrap();
    graph.add_unit("C", vec!["c"], false).unwrap();
    graph.add_edge("A", "B", shape(2.0, 0.0), 0, 1).unwrap();
    graph.add_edge("B", "C", shape(1.0, 3.0), 2, 3).unwrap();
    assert_eq!(graph.conversion_path("A", "C").unwrap(), vec![0, 2]);
    assert_eq!(graph.conversion_path("c", "a").unwrap(), vec![3, 1]);
}

#[test]
fn edge_reinsertion_overwrites_keys() {
    let mut graph = ConversionGraph::new();
    graph.add_unit("A", vec![], false).unwrap();
    graph.add_unit("B", vec![], false).unwrap();
    graph.add_edge("A", "B", shape(2.0, 0.0), 0, 1).unwrap();
    graph.add_edge("A", "B", shape(4.0, 0.0), 5, 6).unwrap();
    assert_eq!(graph.conversion_path("A", "B").unwrap(), vec![5]);
    assert_eq!(graph.conversion_path("B", "A").unwrap(), vec![6]);
}

#[test]
fn path_prefers_fewer_hops() {
    let mut graph = ConversionGraph::new();
    for name in ["A", "B", "C", "D"] {
        graph.add_unit(name, vec![], false).unwrap();
    }
    graph.add_edge("A", "B", shape(2.0, 0.0), 0, 1).unwrap();
    graph.add_edge("B", "C", shape(2.0, 0.0), 2, 3).unwrap();
    graph.add_edge("C", "D", shape(2.0, 0.0), 4, 5).unwrap();
    graph.add_edge("A", "D", shape(8.0, 0.0), 6, 7).unwrap();
    assert_eq!(graph.conversion_path("A", "D").unwrap(), vec![6]);
    assert_eq!(graph.conversion_path("B", "D").unwrap().len(), 2);
}

#[test]
fn disconnected_components_have_no_path() {
    let mut graph = ConversionGraph::new();
    for name in ["A", "B", "C", "D"] {
        graph.add_unit(name, vec![], false).unwrap();
    }
    graph.add_edge("A", "B", shape(2.0, 0.0), 0, 1).unwrap();
    graph.add_edge("C", "D", shape(2.0, 0.0), 2, 3).unwrap();
    match graph.conversion_path("A", "D") {
        Err(ConversionError::ConversionPathNotFound(from, to)) => {
            assert_eq!(from, "A");
            assert_eq!(to, "D");
        }
        _ => panic!("expected ConversionPathNotFound"),
    }
}

#[test]
fn listing_skips_intermediate_units() {
    let mut graph = ConversionGraph::new();
    graph.add_unit("Kelvin", vec!["K"], false).unwrap();
    graph.add_unit("Hidden", vec!["h"], true).unwrap();
    graph.add_unit("Celsius", vec!["C"], false).unwrap();
    graph.add_unit("Meter", vec![], false).unwrap();
    assert_eq!(
        graph.units_formatted(),
        vec!["Kelvin (K)".to_string(), "Celsius (C)".to_string(), "Meter".to_string()]
    );
}

#[test]
fn aliases_resolve_to_the_canonical_name() {
    let mut graph = ConversionGraph::new();
    graph.add_unit("Celsius", vec!["C", "degC"], false).unwrap();
    graph.add_unit("Kelvin", vec!["K"], true).unwrap();
    assert_eq!(graph.resolve("degC"), Some("Celsius".to_string()));
    assert_eq!(graph.resolve("Celsius"), Some("Celsius".to_string()));
    assert_eq!(graph.resolve("K"), Some("Kelvin".to_string()));
    assert_eq!(graph.resolve("F"), None);
}
