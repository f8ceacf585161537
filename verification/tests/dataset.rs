use biodivine_algo_smt_inference::{Dataset, NetworkModel, StateSpecification};

fn fields(items: &[&str]) -> Result<Vec<String>, String> {
    Ok(items.iter().map(|s| s.to_string()).collect())
}

fn network(variables: &[&str]) -> NetworkModel {
    NetworkModel::new(
        variables.iter().map(|s| s.to_string()).collect(),
        vec![],
        vec![],
        variables.iter().map(|_| Some(biodivine_algo_smt_inference::FnUpdate::Const(true))).collect(),
    )
    .unwrap()
}

#[test]
fn a_table_is_read_as_a_dataset() {
    let csv = "ID,YOX1,CLN3,YHP1,ACE2,SWI5,MBF\nObservation1,0,1,0,1,0,1\nObservation2,1,0,*,1,0,*\n";
    let dataset = Dataset::from_csv(csv).unwrap();
    assert_eq!(dataset.variables, vec!["YOX1", "CLN3", "YHP1", "ACE2", "SWI5", "MBF"]);
    assert_eq!(dataset.observations.len(), 2);
    assert_eq!(
        dataset.to_debug_string(),
        "{Variables: {YOX1, CLN3, YHP1, ACE2, SWI5, MBF}, \
         Observations: {Observation1: 010101, Observation2: 10*10*}}"
    );
    let second = dataset.observations.get("Observation2").unwrap();
    assert_eq!(second.value_map.len(), 4);
    assert_eq!(second.value_map.get("YHP1"), None);
    assert_eq!(second.value_map.get("YOX1"), Some(&true));
}

#[test]
fn unspecified_cells_give_no_value() {
    let dataset = Dataset::from_csv("id,a,b,c,d,e\nx,,*,ND,?,1\n").unwrap();
    assert_eq!(dataset.to_debug_string(), "{Variables: {a, b, c, d, e}, Observations: {x: ****1}}");
}

#[test]
fn names_and_cells_are_trimmed() {
    let dataset = Dataset::from_csv("id, a ,b\n  x  , 1 ,\t0\n").unwrap();
    assert_eq!(dataset.variables, vec!["a", "b"]);
    assert_eq!(dataset.to_debug_string(), "{Variables: {a, b}, Observations: {x: 10}}");
}

#[test]
fn observations_are_kept_by_name_and_the_later_one_stays() {
    let dataset = Dataset::from_csv("id,a\nz,1\nm,0\nz,0\n").unwrap();
    assert_eq!(dataset.to_debug_string(), "{Variables: {a}, Observations: {m: 0, z: 0}}");
}

#[test]
fn of_two_columns_of_one_name_the_later_value_stays() {
    let dataset = Dataset::from_csv("id,a,a\nx,1,0\ny,1,*\n").unwrap();
    assert_eq!(dataset.variables, vec!["a", "a"]);
    assert_eq!(dataset.observations.get("x").unwrap().value_map.get("a"), Some(&false));
    assert_eq!(dataset.observations.get("y").unwrap().value_map.get("a"), Some(&true));
}

#[test]
fn an_unknown_cell_is_an_error() {
    assert_eq!(
        Dataset::from_csv("id,a,b\nx,1,2\n").err(),
        Some("Invalid cell value '2' for variable 'b' in observation 'x'".to_string())
    );
    assert_eq!(
        Dataset::from_csv("id,a,b\nfirst,0,1\n second ,yes, no\nthird,7,7\n").err(),
        Some("Invalid cell value 'yes' for variable 'a' in observation 'second'".to_string())
    );
    assert_eq!(
        Dataset::from_csv("id,a\nx,nd\n").err(),
        Some("Invalid cell value 'nd' for variable 'a' in observation 'x'".to_string())
    );
}

#[test]
fn a_record_of_another_length_is_an_error() {
    // The reader of the table refuses it.
    assert!(Dataset::from_csv("id,a,b\nx,1\n").is_err());
    assert!(Dataset::from_csv("id,a\nx,1,0\n").is_err());
    // The same holds of records that are handed over as they are.
    assert_eq!(
        Dataset::from_records(&fields(&["id", "a", "b"]), &vec![fields(&[" x ", "1"])]).err(),
        Some("Observation 'x' has 1 value columns but header lists 2 variables".to_string())
    );
    assert_eq!(
        Dataset::from_records(&fields(&["id"]), &vec![fields(&["y", "1", "0", "1"])]).err(),
        Some("Observation 'y' has 3 value columns but header lists 0 variables".to_string())
    );
}

#[test]
fn an_empty_record_is_an_error() {
    assert_eq!(
        Dataset::from_records(&fields(&["id", "a"]), &vec![fields(&["x", "1"]), fields(&[])])
            .err(),
        Some("Cannot import empty observation.".to_string())
    );
}

#[test]
fn an_empty_row_of_a_table_is_an_error() {
    let message = Some("Cannot import empty observation.".to_string());
    assert_eq!(Dataset::from_csv("id,a\nx,1\n\ny,0\n").err(), message);
    assert_eq!(Dataset::from_csv("id,a\r\nx,1\r\n\r\ny,0\r\n").err(), message);
    assert_eq!(Dataset::from_csv("\nid,a\nx,1\n").err(), message);
    assert_eq!(Dataset::from_csv("id,a\nx,1\n\n").err(), message);
    assert_eq!(Dataset::from_csv("id,a\n\nx,bad\n").err(), message);
    assert_eq!(Dataset::from_csv("id,a\rx,1\r\ry,0").err(), message);
    assert_eq!(Dataset::from_csv("\n").err(), message);
    // A line break at the end of a row is none, however it is written.
    assert!(Dataset::from_csv("id,a\r\nx,1\r\ny,0\r\n").is_ok());
    assert!(Dataset::from_csv("id,a\nx,1\ny,0").is_ok());
    assert!(Dataset::from_csv("id,a\rx,1\ry,0\r").is_ok());
    for (text, expected) in [
        ("", false),
        ("a", false),
        ("a\n", false),
        ("a\r\n", false),
        ("a\n\r", true),
        ("a\r\r\n", true),
        ("\r", true),
        ("é\n€\n", false),
        ("é\n\n€", true),
    ] {
        assert_eq!(biodivine_algo_smt_inference::observations::holds_empty_row(text), expected);
    }
}

#[test]
fn datasets_are_compared_by_what_they_hold() {
    let one = Dataset::from_csv("id,a,b\nx,1,*\ny,0,1\n").unwrap();
    let same = Dataset::from_csv("id, a ,b\ny,0,1\nx,1,\n").unwrap();
    let other = Dataset::from_csv("id,a,b\nx,1,0\ny,0,1\n").unwrap();
    assert!(one == same);
    assert!(one != other);
    assert!(one.observations.get("x") == same.observations.get("x"));
    assert!(one.clone() == one);
}

#[test]
fn names_of_observations_must_fit_as_states() {
    let plain = network(&["a", "b"]);
    assert!(Dataset::from_csv("id,a\nfp_1,1\nfp_2,0\n").unwrap().states_fit_network(&plain));
    assert!(Dataset::from_csv("id,a\n").unwrap().states_fit_network(&plain));
    // One name begins with the other and an underscore, but no two
    // constants have one name.
    let nested = Dataset::from_csv("id,a\ns,1\ns_a,0\n").unwrap();
    assert!(nested.states_fit_network(&plain));
    let problem = nested.to_inference_problem(network(&["a", "b"])).unwrap();
    assert!(problem.contains_state("s") && problem.contains_state("s_a"));
    assert!(Dataset::from_csv("id,a\ns_a_b,1\nt,1\ns_a,0\n").unwrap().states_fit_network(&plain));
    assert!(Dataset::from_csv("id,a\ns,1\nsa,0\ns-a,1\n").unwrap().states_fit_network(&plain));
    // `x_s_a_b` is the constant of `a_b` in `s` and of `b` in `s_a`.
    let twice = network(&["a_b", "b"]);
    assert!(!Dataset::from_csv("id,b\ns,1\ns_a,0\n").unwrap().states_fit_network(&twice));
    assert!(Dataset::from_csv("id,b\ns,1\ns_b,0\n").unwrap().states_fit_network(&twice));
    // The auxiliary states of the regulations are named `o_0_1` and `act_0_1`.
    let regulated = NetworkModel::new(
        vec!["a".to_string(), "b".to_string()],
        vec![biodivine_algo_smt_inference::Regulation {
            regulator: 0,
            target: 1,
            observable: true,
            monotonicity: Some(biodivine_algo_smt_inference::Monotonicity::Activation),
        }],
        vec![],
        vec![
            Some(biodivine_algo_smt_inference::FnUpdate::Const(true)),
            Some(biodivine_algo_smt_inference::FnUpdate::Var(0)),
        ],
    )
    .unwrap();
    for (name, fits) in [
        ("o", true),
        ("o_0", true),
        ("o_0_1", false),
        ("o_0_1_a", true),
        ("act", true),
        ("act_0_1", false),
        ("inh", true),
        ("inh_0_1", true),
        ("o_1_0", true),
        ("o_0_10", true),
        ("oo", true),
        ("fix", true),
    ] {
        let text = format!("id,a\n{},1\n", name);
        assert_eq!(Dataset::from_csv(&text).unwrap().states_fit_network(&regulated), fits);
        assert_eq!(
            biodivine_algo_smt_inference::InferenceProblem::new(NetworkModel::new(
                vec!["a".to_string(), "b".to_string()],
                vec![biodivine_algo_smt_inference::Regulation {
                    regulator: 0,
                    target: 1,
                    observable: true,
                    monotonicity: Some(biodivine_algo_smt_inference::Monotonicity::Activation),
                }],
                vec![],
                vec![
                    Some(biodivine_algo_smt_inference::FnUpdate::Const(true)),
                    Some(biodivine_algo_smt_inference::FnUpdate::Var(0)),
                ],
            )
            .unwrap())
            .can_declare(name),
            fits
        );
    }
    // `x_o_0_1_a` is the constant of `1_a` in `o_0` and of `a` in `o_0_1`.
    let nested = NetworkModel::new(
        vec!["1_a".to_string(), "a".to_string()],
        vec![biodivine_algo_smt_inference::Regulation {
            regulator: 0,
            target: 1,
            observable: true,
            monotonicity: None,
        }],
        vec![],
        vec![
            Some(biodivine_algo_smt_inference::FnUpdate::Const(true)),
            Some(biodivine_algo_smt_inference::FnUpdate::Var(0)),
        ],
    )
    .unwrap();
    assert!(!Dataset::from_csv("id,a\no_0,1\n").unwrap().states_fit_network(&nested));
    assert!(Dataset::from_csv("id,a\no,1\n").unwrap().states_fit_network(&nested));
    assert!(Dataset::from_csv("id,a\nact_0,1\n").unwrap().states_fit_network(&nested));
}

#[test]
fn the_first_error_decides() {
    let rows = vec![
        fields(&["x", "1"]),
        Err("the reader refused this record".to_string()),
        fields(&["y", "bad"]),
    ];
    assert_eq!(
        Dataset::from_records(&fields(&["id", "a"]), &rows).err(),
        Some("the reader refused this record".to_string())
    );
    let rows = vec![fields(&["y", "bad"]), Err("the reader refused this record".to_string())];
    assert_eq!(
        Dataset::from_records(&fields(&["id", "a"]), &rows).err(),
        Some("Invalid cell value 'bad' for variable 'a' in observation 'y'".to_string())
    );
    assert_eq!(
        Dataset::from_records(&Err("no header".to_string()), &rows).err(),
        Some("no header".to_string())
    );
}

#[test]
fn a_table_without_records_is_an_empty_dataset() {
    let dataset = Dataset::from_csv("id,a,b\n").unwrap();
    assert_eq!(dataset.to_debug_string(), "{Variables: {a, b}, Observations: {}}");
    let dataset = Dataset::from_csv("").unwrap();
    assert_eq!(dataset.to_debug_string(), "{Variables: {}, Observations: {}}");
    let dataset = Dataset::from_records(&fields(&[]), &vec![]).unwrap();
    assert!(dataset.variables.is_empty());
}

fn parts(specification: &StateSpecification) -> Vec<(usize, bool, u128, u128)> {
    (0..specification.len())
        .map(|i| {
            let a = specification.entry(i);
            (a.variable, a.value, a.confidence.numerator(), a.confidence.denominator())
        })
        .collect()
}

#[test]
fn observations_become_specifications_of_weight_one_half() {
    let dataset = Dataset::from_csv("id,c,a,b\nsecond,1,*,0\nfirst,0,1,1\n").unwrap();
    let specs = dataset.to_specification_list(&network(&["a", "b", "c"])).unwrap();
    assert_eq!(specs.len(), 2);
    assert_eq!(specs.key(0), "first");
    assert_eq!(specs.key(1), "second");
    assert_eq!(parts(specs.value(0)), vec![(0, true, 1, 2), (1, true, 1, 2), (2, false, 1, 2)]);
    assert_eq!(parts(specs.value(1)), vec![(1, false, 1, 2), (2, true, 1, 2)]);
    assert!(specs.value(0).make_required_assertion_map().is_empty());
    assert_eq!(specs.value(1).make_optional_assertion_map().len(), 2);
}

#[test]
fn a_variable_that_the_network_lacks_is_an_error() {
    let dataset = Dataset::from_csv("id,a,x,y\nfirst,0,*,*\nsecond,1,1,1\n").unwrap();
    assert_eq!(
        dataset.to_specification_list(&network(&["a", "b"])).err(),
        Some("Variable 'x' not found in the network".to_string())
    );
    assert_eq!(
        dataset.to_inference_problem(network(&["a", "y"])).err(),
        Some("Variable 'x' not found in the network".to_string())
    );
    // A variable without a value is not looked for.
    let dataset = Dataset::from_csv("id,a,x\nfirst,0,*\n").unwrap();
    assert!(dataset.to_specification_list(&network(&["a"])).is_ok());
}
