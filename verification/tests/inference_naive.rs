use biodivine_algo_smt_inference::naive_inference::{
    loosen_specification, network_fixed_points, run_naive_inference, search,
    specification_entries,
};
use biodivine_algo_smt_inference::Dataset;
use biodivine_algo_smt_inference::engine_limits::{engine_takes_network, is_row, name_fits};
use biodivine_lib_param_bn::{
    BooleanNetwork, FnUpdate, ParameterId, Regulation, RegulatoryGraph, VariableId,
};

/// A fully specified model of four variables with activations only. Its
/// fixed points are `0000`, `0100` and `1111`.
const TOY_MODEL_4V: &str = r#"
    v_3 -> v_1
    v_1 -> v_2
    v_2 -> v_2
    v_4 -> v_3
    v_1 -> v_4
    v_2 -> v_4
    $v_1: v_3
    $v_2: v_2 | v_1
    $v_3: v_4
    $v_4: v_1 & v_2
"#;

/// Two fixed points are asked for, `0110` (fp_1) and `0001` (fp_2).
const TOY_SPEC_4V: &str = "ID,v_1,v_2,v_3,v_4\nfp_1,0,1,1,0\nfp_2,0,0,0,1\n";

fn pair(observation: &str, variable: &str) -> (String, String) {
    (observation.to_string(), variable.to_string())
}

#[test]
fn test_toy_model_4v_bn() {
    let bn = BooleanNetwork::try_from(TOY_MODEL_4V).unwrap();
    let dataset_spec = Dataset::from_csv(TOY_SPEC_4V).unwrap();

    // There is a single optimal specification, with 01*0 and 000*.
    let mut optimal_solutions = run_naive_inference(&bn, &dataset_spec).unwrap();
    let expected_removed_constraints = vec![pair("fp_1", "v_3"), pair("fp_2", "v_4")];
    let position = optimal_solutions
        .iter()
        .position(|(removed, _)| *removed == expected_removed_constraints);
    // Only one model satisfies this specification.
    assert!(position.is_some());
    let (_, solution_set) = optimal_solutions.remove(position.unwrap());
    assert!(solution_set.is_singleton());
    // There are no other optimal specifications.
    assert!(optimal_solutions.is_empty())
}

#[test]
fn satisfied_dataset_needs_no_relaxation() {
    let bn = BooleanNetwork::try_from(TOY_MODEL_4V).unwrap();
    let dataset =
        Dataset::from_csv("ID,v_1,v_2,v_3,v_4\nlow,0,*,0,0\nhigh,1,1,1,1\n").unwrap();
    let solutions = run_naive_inference(&bn, &dataset).unwrap();
    assert_eq!(solutions.len(), 1);
    assert!(solutions[0].0.is_empty());
    assert!(solutions[0].1.is_singleton());
}

#[test]
fn all_minimal_relaxations_are_returned_in_order() {
    let bn = BooleanNetwork::try_from(TOY_MODEL_4V).unwrap();
    // `1100` is one value away from `0100` and two from `1111`; `0101` is one
    // value away from `0100` only.
    let dataset = Dataset::from_csv("ID,v_1,v_2,v_3,v_4\nx,1,1,0,0\n").unwrap();
    let solutions = run_naive_inference(&bn, &dataset).unwrap();
    let removed: Vec<Vec<(String, String)>> =
        solutions.iter().map(|(removed, _)| removed.clone()).collect();
    assert_eq!(removed, vec![vec![pair("x", "v_1")]]);

    // `1010`: give up v_1 and v_3 (0000), or v_2 and v_4 (1111); no single
    // value does, and the two pairs come in the order of their positions.
    let dataset = Dataset::from_csv("ID,v_1,v_2,v_3,v_4\nx,1,0,1,0\n").unwrap();
    let solutions = run_naive_inference(&bn, &dataset).unwrap();
    let removed: Vec<Vec<(String, String)>> =
        solutions.iter().map(|(removed, _)| removed.clone()).collect();
    assert_eq!(
        removed,
        vec![
            vec![pair("x", "v_1"), pair("x", "v_3")],
            vec![pair("x", "v_2"), pair("x", "v_4")],
        ]
    );
}

#[test]
fn unknown_variable_is_an_error() {
    let bn = BooleanNetwork::try_from(TOY_MODEL_4V).unwrap();
    let dataset = Dataset::from_csv("ID,v_1,v_9\nx,1,0\n").unwrap();
    assert_eq!(
        run_naive_inference(&bn, &dataset).err(),
        Some("Variable 'v_9' not found in the network".to_string())
    );
}

const UNFIT: &str = "The network cannot be encoded symbolically: a name holds one of \
                     !&|^=<>()?: or is that of a row of a function table, an update function \
                     or a regulation names what the network does not have, or more than 65534 \
                     symbolic variables are needed.";

fn plain_network(names: &[&str]) -> BooleanNetwork {
    BooleanNetwork::new(RegulatoryGraph::new(names.iter().map(|n| n.to_string()).collect()))
}

#[test]
fn a_network_with_a_name_that_the_engine_refuses_is_an_error() {
    let dataset = Dataset::from_csv("ID,a\nx,1\n").unwrap();
    for name in ["a(b", "a&", "!", "x:y", "p?q", "a=b", "<", ">", "a|b", "^", ")"] {
        let bn = plain_network(&["a", name]);
        assert!(!engine_takes_network(&bn));
        assert_eq!(run_naive_inference(&bn, &dataset).err(), Some(UNFIT.to_string()));
        assert!(!name_fits(name));
    }
    for name in ["b-c.d", "a[0]", "[", "]", "a[]", "f_a", "f_a[0]", "f_a[", "é_1", "f_b[]"] {
        let bn = plain_network(&["a", name]);
        assert!(engine_takes_network(&bn), "{}", name);
        assert!(run_naive_inference(&bn, &dataset).is_ok(), "{}", name);
        assert!(name_fits(name));
    }
}

#[test]
fn a_component_named_as_a_row_of_a_table_is_an_error() {
    let dataset = Dataset::from_csv("ID,a\nx,1\n").unwrap();
    // The unnamed function of `a` is `f_a`; it has one row, `f_a[]`.
    let bn = plain_network(&["a", "f_a[]"]);
    assert!(!engine_takes_network(&bn));
    assert_eq!(run_naive_inference(&bn, &dataset).err(), Some(UNFIT.to_string()));
    // Where a component is named `f_a`, the function is `_f_a`.
    let bn = plain_network(&["a", "f_a", "_f_a[]"]);
    assert!(!engine_takes_network(&bn));
    assert_eq!(run_naive_inference(&bn, &dataset).err(), Some(UNFIT.to_string()));
    let bn = plain_network(&["a", "f_a", "f_a[]"]);
    assert!(engine_takes_network(&bn));
    assert!(run_naive_inference(&bn, &dataset).is_ok());
    // With a regulator, the rows of `f_a` are `f_a[0]` and `f_a[1]`.
    for (name, fits) in [("f_a[1]", false), ("f_a[0]", false), ("f_a[]", true), ("f_a[2]", true)] {
        let mut graph =
            RegulatoryGraph::new(vec!["a".to_string(), "b".to_string(), name.to_string()]);
        graph.add_regulation("b", "a", false, None).unwrap();
        let bn = BooleanNetwork::new(graph);
        assert_eq!(engine_takes_network(&bn), fits, "{}", name);
        assert_eq!(run_naive_inference(&bn, &dataset).is_ok(), fits, "{}", name);
    }
    // The rows of a named function that is applied.
    for (name, fits) in [("g[0,1]", false), ("g[1,1]", false), ("g[0]", true), ("g[0,1,0]", true)]
    {
        let mut graph =
            RegulatoryGraph::new(vec!["a".to_string(), "b".to_string(), name.to_string()]);
        graph.add_regulation("a", "b", false, None).unwrap();
        graph.add_regulation("b", "b", false, None).unwrap();
        let mut bn = BooleanNetwork::new(graph);
        let g = bn.add_parameter("g", 2).unwrap();
        let a = FnUpdate::Var(VariableId::from_index(0));
        let b = FnUpdate::Var(VariableId::from_index(1));
        bn.add_update_function(VariableId::from_index(1), FnUpdate::Param(g, vec![a, b])).unwrap();
        assert_eq!(engine_takes_network(&bn), fits, "{}", name);
        assert_eq!(run_naive_inference(&bn, &dataset).is_ok(), fits, "{}", name);
    }
    assert!(is_row("g[0,1]", "g", 2));
    assert!(is_row("g[]", "g", 0));
    assert!(is_row("[1]", "", 1));
    assert!(!is_row("g[0,1]", "g", 1));
    assert!(!is_row("g[0;1]", "g", 2));
    assert!(!is_row("g[0,2]", "g", 2));
    assert!(!is_row("g[0,1", "g", 2));
    assert!(!is_row("h[0,1]", "g", 2));
    assert!(!is_row("g", "g", 0));
    assert!(!is_row("g[0,1]", "g[0,1]", 0));
}

#[test]
fn a_network_that_names_what_it_does_not_have_is_an_error() {
    let dataset = Dataset::from_csv("ID,a\nx,1\n").unwrap();
    // An update function that applies a function that the network lacks.
    let mut bn = plain_network(&["a", "b"]);
    let missing = FnUpdate::Param(ParameterId::from_index(99), vec![]);
    bn.add_update_function(VariableId::from_index(0), missing).unwrap();
    assert!(!engine_takes_network(&bn));
    assert_eq!(run_naive_inference(&bn, &dataset).err(), Some(UNFIT.to_string()));
    assert_eq!(network_fixed_points(&bn).err(), Some(UNFIT.to_string()));
    // A regulation from a component that the network lacks.
    let mut graph = RegulatoryGraph::new(vec!["a".to_string(), "b".to_string()]);
    graph
        .add_raw_regulation(Regulation {
            regulator: VariableId::from_index(7),
            target: VariableId::from_index(0),
            observable: true,
            monotonicity: None,
        })
        .unwrap();
    let bn = BooleanNetwork::new(graph);
    assert!(!engine_takes_network(&bn));
    assert_eq!(run_naive_inference(&bn, &dataset).err(), Some(UNFIT.to_string()));
    // A regulation of such a component.
    let mut graph = RegulatoryGraph::new(vec!["a".to_string(), "b".to_string()]);
    graph
        .add_raw_regulation(Regulation {
            regulator: VariableId::from_index(0),
            target: VariableId::from_index(2),
            observable: false,
            monotonicity: None,
        })
        .unwrap();
    let bn = BooleanNetwork::new(graph);
    assert!(!engine_takes_network(&bn));
    assert_eq!(run_naive_inference(&bn, &dataset).err(), Some(UNFIT.to_string()));
    // An update function that reads such a component.
    let mut graph = RegulatoryGraph::new(vec!["a".to_string(), "b".to_string()]);
    graph
        .add_raw_regulation(Regulation {
            regulator: VariableId::from_index(7),
            target: VariableId::from_index(0),
            observable: false,
            monotonicity: None,
        })
        .unwrap();
    let mut bn = BooleanNetwork::new(graph);
    let reads = FnUpdate::Var(VariableId::from_index(7));
    bn.add_update_function(VariableId::from_index(0), reads).unwrap();
    assert!(!engine_takes_network(&bn));
    assert_eq!(run_naive_inference(&bn, &dataset).err(), Some(UNFIT.to_string()));
}

#[test]
fn a_function_that_no_update_function_applies_is_the_error_of_the_engine() {
    let dataset = Dataset::from_csv("ID,a\nx,1\n").unwrap();
    let mut bn = plain_network(&["a"]);
    // Its name would be refused, but the engine makes no table for it.
    bn.add_parameter("g(", 1).unwrap();
    assert!(engine_takes_network(&bn));
    assert_eq!(
        run_naive_inference(&bn, &dataset).err(),
        Some("Integrity error: Uninterpreted function g( declared but not used.".to_string())
    );
}

#[test]
fn a_network_of_too_many_symbolic_variables_is_an_error() {
    let dataset = Dataset::from_csv("ID,v0\nx,1\n").unwrap();
    // Every component without an update function has a table of one row:
    // the tables alone fit, components and tables together do not.
    let names: Vec<String> = (0..40000).map(|i| format!("v{}", i)).collect();
    let bn = BooleanNetwork::new(RegulatoryGraph::new(names));
    assert!(!engine_takes_network(&bn));
    assert_eq!(run_naive_inference(&bn, &dataset).err(), Some(UNFIT.to_string()));
    // A function of sixteen regulators has a table of 65536 rows: the engine
    // says itself that the tables do not fit.
    let names: Vec<String> = (0..17).map(|i| format!("v{}", i)).collect();
    let mut graph = RegulatoryGraph::new(names);
    for i in 1..17 {
        graph.add_regulation(&format!("v{}", i), "v0", false, None).unwrap();
    }
    let bn = BooleanNetwork::new(graph);
    assert!(engine_takes_network(&bn));
    assert_eq!(
        run_naive_inference(&bn, &dataset).err(),
        Some(
            "The network is too large. 65552 symbolic variables needed, but 65535 available."
                .to_string()
        )
    );
    // With three regulators less, everything fits.
    let names: Vec<String> = (0..14).map(|i| format!("v{}", i)).collect();
    let mut graph = RegulatoryGraph::new(names);
    for i in 1..14 {
        graph.add_regulation(&format!("v{}", i), "v0", false, None).unwrap();
    }
    assert!(engine_takes_network(&BooleanNetwork::new(graph)));
}

#[test]
fn the_search_runs_on_the_fixed_points_of_the_network() {
    let bn = BooleanNetwork::try_from(TOY_MODEL_4V).unwrap();
    let dataset = Dataset::from_csv(TOY_SPEC_4V).unwrap();
    let (graph, fixed_points, variables) = network_fixed_points(&bn).unwrap();
    assert_eq!(variables, vec!["v_1", "v_2", "v_3", "v_4"]);
    assert_eq!(fixed_points.vertices().approx_cardinality(), 3.0);
    let direct = search(&graph, &fixed_points, &variables, &dataset).unwrap();
    let whole = run_naive_inference(&bn, &dataset).unwrap();
    assert_eq!(direct.len(), whole.len());
    for (one, other) in direct.iter().zip(whole.iter()) {
        assert_eq!(one.0, other.0);
        assert_eq!(one.1, other.1);
    }
}

#[test]
fn empty_dataset_is_met_by_every_color() {
    let bn = BooleanNetwork::try_from(TOY_MODEL_4V).unwrap();
    let dataset = Dataset::from_csv("ID,v_1\n").unwrap();
    let solutions = run_naive_inference(&bn, &dataset).unwrap();
    assert_eq!(solutions.len(), 1);
    assert!(solutions[0].0.is_empty());
}

#[test]
fn loosening_removes_the_named_values_only() {
    let dataset = Dataset::from_csv(TOY_SPEC_4V).unwrap();
    let loosened = loosen_specification(
        &dataset,
        &[pair("fp_1", "v_3"), pair("fp_2", "v_4"), pair("fp_3", "v_1"), pair("fp_1", "v_9")],
    );
    assert_eq!(
        loosened.to_debug_string(),
        "{Variables: {v_1, v_2, v_3, v_4}, Observations: {fp_1: 01*0, fp_2: 000*}}"
    );
    // The dataset itself is as it was.
    assert_eq!(
        dataset.to_debug_string(),
        "{Variables: {v_1, v_2, v_3, v_4}, Observations: {fp_1: 0110, fp_2: 0001}}"
    );
    assert_eq!(loosen_specification(&dataset, &[]).to_debug_string(), dataset.to_debug_string());
}

#[test]
fn entries_are_listed_by_observation_then_variable() {
    let dataset = Dataset::from_csv("ID,b,a\nsecond,1,*\nfirst,0,1\n").unwrap();
    assert_eq!(
        specification_entries(&dataset),
        vec![pair("first", "a"), pair("first", "b"), pair("second", "b")]
    );
}
