use biodivine_algo_smt_inference::network::update_is_valid;
use biodivine_algo_smt_inference::{
    BinaryOp, FnUpdate, Monotonicity, NetworkModel, Regulation, UninterpretedFunction,
};

fn names(items: &[&str]) -> Vec<String> {
    items.iter().map(|s| s.to_string()).collect()
}

fn function(name: &str, arity: usize) -> UninterpretedFunction {
    UninterpretedFunction { name: name.to_string(), arity }
}

fn regulation(regulator: usize, target: usize) -> Regulation {
    Regulation { regulator, target, observable: true, monotonicity: Some(Monotonicity::Activation) }
}

fn call(function: usize, args: Vec<FnUpdate>) -> FnUpdate {
    FnUpdate::Param(function, args)
}

fn sample_updates() -> Vec<Option<FnUpdate>> {
    vec![
        Some(FnUpdate::Const(false)),
        None,
        Some(FnUpdate::Binary(
            BinaryOp::And,
            Box::new(call(0, vec![FnUpdate::Var(0), FnUpdate::Not(Box::new(FnUpdate::Var(1)))])),
            Box::new(FnUpdate::Var(2)),
        )),
    ]
}

#[test]
fn a_valid_network_is_accepted() {
    let network = NetworkModel::new(
        names(&["a", "b", "c"]),
        vec![regulation(0, 2), regulation(1, 2)],
        vec![function("f", 2)],
        sample_updates(),
    )
    .unwrap();
    assert_eq!(network.num_vars(), 3);
    assert_eq!(network.num_parameters(), 1);
    assert_eq!(network.num_regulations(), 2);
    assert_eq!(network.num_implicit_parameters(), 1);
    assert_eq!(network.get_variable_name(1), "b");
    assert_eq!(network.variable_names(), &names(&["a", "b", "c"]));
    assert_eq!(network.get_parameter(0).name, "f");
    assert_eq!(network.get_parameter(0).arity, 2);
    assert_eq!(network.get_regulation(1).regulator, 1);
    assert!(network.get_update_function(1).is_none());
    assert!(network.get_update_function(0).is_some());
    assert_eq!(network.find_variable("c"), Some(2));
    assert_eq!(network.find_variable("d"), None);
}

#[test]
fn components_are_found_by_name() {
    let network =
        NetworkModel::new(names(&["a", "b", "ab"]), vec![], vec![], vec![None, None, None])
            .unwrap();
    assert_eq!(network.find_variable("a"), Some(0));
    assert_eq!(network.find_variable("b"), Some(1));
    assert_eq!(network.find_variable("ab"), Some(2));
    assert_eq!(network.find_variable(""), None);
    assert_eq!(network.num_implicit_parameters(), 3);
}

#[test]
fn names_that_occur_twice_are_refused() {
    assert!(
        NetworkModel::new(names(&["a", "b", "a"]), vec![], vec![], vec![None, None, None])
            .is_none()
    );
    assert!(NetworkModel::new(
        names(&["a"]),
        vec![],
        vec![function("f", 1), function("g", 2), function("f", 3)],
        vec![None]
    )
    .is_none());
    // A component and a function may have one name.
    assert!(NetworkModel::new(names(&["a"]), vec![], vec![function("a", 1)], vec![None]).is_some());
}

#[test]
fn parts_that_make_no_network_are_refused() {
    // An update function too few.
    assert!(NetworkModel::new(names(&["a", "b"]), vec![], vec![], vec![None]).is_none());
    // A regulation of a component that is not there.
    assert!(
        NetworkModel::new(names(&["a"]), vec![regulation(0, 1)], vec![], vec![None]).is_none()
    );
    assert!(
        NetworkModel::new(names(&["a"]), vec![regulation(1, 0)], vec![], vec![None]).is_none()
    );
    // A name with a zero character.
    assert!(NetworkModel::new(names(&["a\0"]), vec![], vec![], vec![None]).is_none());
    assert!(
        NetworkModel::new(names(&["a"]), vec![], vec![function("f\0", 1)], vec![None]).is_none()
    );
    // A function without a name.
    assert!(NetworkModel::new(names(&["a"]), vec![], vec![function("", 1)], vec![None]).is_none());
    // A component that is not there.
    assert!(NetworkModel::new(names(&["a"]), vec![], vec![], vec![Some(FnUpdate::Var(1))])
        .is_none());
    // A function that is not there, and one with the wrong number of arguments.
    assert!(NetworkModel::new(
        names(&["a"]),
        vec![],
        vec![function("f", 1)],
        vec![Some(call(1, vec![FnUpdate::Var(0)]))]
    )
    .is_none());
    assert!(NetworkModel::new(
        names(&["a"]),
        vec![],
        vec![function("f", 1)],
        vec![Some(call(0, vec![FnUpdate::Var(0), FnUpdate::Var(0)]))]
    )
    .is_none());
    // Deep inside an expression.
    assert!(NetworkModel::new(
        names(&["a"]),
        vec![],
        vec![function("f", 1)],
        vec![Some(FnUpdate::Not(Box::new(call(
            0,
            vec![FnUpdate::Binary(
                BinaryOp::Imp,
                Box::new(FnUpdate::Const(true)),
                Box::new(FnUpdate::Var(3))
            )]
        ))))]
    )
    .is_none());
    // The empty network is one.
    assert!(NetworkModel::new(vec![], vec![], vec![], vec![]).is_some());
}

#[test]
fn update_functions_are_checked_against_components_and_functions() {
    let functions = vec![function("f", 2), function("g", 0)];
    assert!(update_is_valid(&FnUpdate::Const(true), 0, &functions));
    assert!(update_is_valid(&FnUpdate::Var(1), 2, &functions));
    assert!(!update_is_valid(&FnUpdate::Var(2), 2, &functions));
    assert!(update_is_valid(&call(1, vec![]), 0, &functions));
    assert!(!update_is_valid(&call(1, vec![FnUpdate::Const(true)]), 0, &functions));
    assert!(update_is_valid(&call(0, vec![call(1, vec![]), FnUpdate::Var(0)]), 1, &functions));
    assert!(!update_is_valid(&call(0, vec![call(1, vec![]), FnUpdate::Var(1)]), 1, &functions));
    assert!(!update_is_valid(&call(2, vec![]), 1, &functions));
}

#[test]
fn stripping_monotonicity_keeps_everything_else() {
    let network = NetworkModel::new(
        names(&["a", "b", "c"]),
        vec![
            regulation(0, 2),
            Regulation {
                regulator: 1,
                target: 2,
                observable: false,
                monotonicity: Some(Monotonicity::Inhibition),
            },
        ],
        vec![function("f", 2)],
        sample_updates(),
    )
    .unwrap()
    .strip_monotonicity();
    assert_eq!(network.num_regulations(), 2);
    for (index, observable) in [(0, true), (1, false)] {
        let regulation = network.get_regulation(index);
        assert_eq!(regulation.regulator, index);
        assert_eq!(regulation.target, 2);
        assert_eq!(regulation.observable, observable);
        assert!(regulation.monotonicity.is_none());
    }
    assert_eq!(network.num_vars(), 3);
    assert_eq!(network.num_parameters(), 1);
    assert_eq!(network.num_implicit_parameters(), 1);
}
