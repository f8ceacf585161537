use biodivine_algo_smt_inference::{
    BinaryOp, Confidence, FnUpdate, InferenceProblem, Monotonicity, NetworkModel, Regulation,
    StateSpecification, UninterpretedFunction,
};
use biodivine_lib_param_bn::BooleanNetwork;
use num_rational::BigRational;
use num_traits::{FromPrimitive, ToPrimitive};
use z3::SatResult;

fn convert_update(update: &biodivine_lib_param_bn::FnUpdate) -> FnUpdate {
    match update {
        biodivine_lib_param_bn::FnUpdate::Const(value) => FnUpdate::Const(*value),
        biodivine_lib_param_bn::FnUpdate::Var(id) => FnUpdate::Var(id.to_index()),
        biodivine_lib_param_bn::FnUpdate::Param(id, args) => {
            FnUpdate::Param(id.to_index(), args.iter().map(convert_update).collect())
        }
        biodivine_lib_param_bn::FnUpdate::Not(inner) => {
            FnUpdate::Not(Box::new(convert_update(inner)))
        }
        biodivine_lib_param_bn::FnUpdate::Binary(op, left, right) => {
            let op = match op {
                biodivine_lib_param_bn::BinaryOp::And => BinaryOp::And,
                biodivine_lib_param_bn::BinaryOp::Or => BinaryOp::Or,
                biodivine_lib_param_bn::BinaryOp::Xor => BinaryOp::Xor,
                biodivine_lib_param_bn::BinaryOp::Iff => BinaryOp::Iff,
                biodivine_lib_param_bn::BinaryOp::Imp => BinaryOp::Imp,
            };
            FnUpdate::Binary(op, Box::new(convert_update(left)), Box::new(convert_update(right)))
        }
    }
}

fn convert_network(network: &BooleanNetwork) -> NetworkModel {
    let variables = network
        .variables()
        .map(|id| network.get_variable_name(id).clone())
        .collect();
    let regulations = network
        .as_graph()
        .regulations()
        .map(|reg| Regulation {
            regulator: reg.regulator.to_index(),
            target: reg.target.to_index(),
            observable: reg.observable,
            monotonicity: reg.monotonicity.map(|m| match m {
                biodivine_lib_param_bn::Monotonicity::Activation => Monotonicity::Activation,
                biodivine_lib_param_bn::Monotonicity::Inhibition => Monotonicity::Inhibition,
            }),
        })
        .collect();
    let parameters = network
        .parameters()
        .map(|id| UninterpretedFunction {
            name: network[id].get_name().clone(),
            arity: usize::try_from(network[id].get_arity()).unwrap(),
        })
        .collect();
    let update_functions = network
        .variables()
        .map(|id| network.get_update_function(id).as_ref().map(convert_update))
        .collect();
    NetworkModel::new(variables, regulations, parameters, update_functions).unwrap()
}

fn confidence(value: f32) -> Confidence {
    let exact = BigRational::from_f32(value).unwrap();
    Confidence::new(exact.numer().to_u128().unwrap(), exact.denom().to_u128().unwrap()).unwrap()
}

/// A fully specified network with variables `a`, `b`, `c` and the single
/// fixed point `010`.
fn make_one_fixed_point_network() -> (NetworkModel, usize, usize, usize) {
    let bn = BooleanNetwork::try_from(
        r#"
            a -?? c
            b -?? c
            $a: false
            $b: true
            $c: a & b
        "#,
    )
    .unwrap();
    (convert_network(&bn), 0, 1, 2)
}

/// The same, with the two fixed points `010` and `111`.
fn make_two_fixed_points_network() -> (NetworkModel, usize, usize, usize) {
    let bn = BooleanNetwork::try_from(
        r#"
        a -?? a
        a -?? c
        b -?? c
        $a: a
        $b: true
        $c: a & b
        "#,
    )
    .unwrap();
    (convert_network(&bn), 0, 1, 2)
}

/// A single fixed point is found.
#[test]
fn one_fixed_point_must_positive() {
    let (bn, a, b, c) = make_one_fixed_point_network();

    let mut specification = StateSpecification::default();
    specification.assert_must(a, false);
    specification.assert_must(b, true);
    specification.assert_must(c, false);

    let mut problem = InferenceProblem::new(bn);
    let fix = problem.make_state("fix");
    problem.assert_fixed_point("fix");
    problem.assert_state_observation("fix", &specification);

    let solver = problem.build_solver();
    assert_eq!(solver.check(&[]), SatResult::Sat);
    let model = solver.get_model().unwrap();
    assert_eq!(fix.extract_state(&model), vec![false, true, false]);
}

/// A fixed point that does not exist is not found.
#[test]
fn one_fixed_point_must_negative() {
    let (bn, a, b, c) = make_one_fixed_point_network();

    let mut specification = StateSpecification::default();
    specification.assert_must(a, true);
    specification.assert_must(b, true);
    specification.assert_must(c, false);

    let mut problem = InferenceProblem::new(bn);
    let _fix = problem.make_state("fix");
    problem.assert_fixed_point("fix");
    problem.assert_state_observation("fix", &specification);

    let solver = problem.build_solver();
    assert_eq!(solver.check(&[]), SatResult::Unsat);
}

/// The fixed point (010) within distance one of the specification (110).
#[test]
fn one_fixed_point_may() {
    let (bn, a, b, c) = make_one_fixed_point_network();

    let one_half = confidence(0.5);
    let mut specification = StateSpecification::default();
    specification.assert_may(a, true, &one_half);
    specification.assert_may(b, true, &one_half);
    specification.assert_may(c, false, &one_half);

    let mut problem = InferenceProblem::new(bn);
    let fix = problem.make_state("fix");
    problem.assert_fixed_point("fix");
    problem.assert_state_observation("fix", &specification);

    let solver = problem.build_solver();
    assert_eq!(solver.check(&[]), SatResult::Sat);
    let model = solver.get_model().unwrap();
    // Note that a=0, even though the specification prefers a=1.
    assert_eq!(fix.extract_state(&model), vec![false, true, false]);
}

/// Two distinct fixed points are found.
#[test]
fn two_fixed_point_must_positive() {
    let (bn, a, b, c) = make_two_fixed_points_network();

    let mut spec_one = StateSpecification::default();
    spec_one.assert_must(a, false);
    spec_one.assert_must(b, true);
    spec_one.assert_must(c, false);

    let mut spec_two = StateSpecification::default();
    spec_two.assert_must(a, true);
    spec_two.assert_must(b, true);
    spec_two.assert_must(c, true);

    let mut problem = InferenceProblem::new(bn);
    let fix_one = problem.make_state("fix-1");
    let fix_two = problem.make_state("fix-2");
    problem.assert_fixed_point("fix-1");
    problem.assert_fixed_point("fix-2");
    problem.assert_state_observation("fix-1", &spec_one);
    problem.assert_state_observation("fix-2", &spec_two);

    let solver = problem.build_solver();
    assert_eq!(solver.check(&[]), SatResult::Sat);
    let model = solver.get_model().unwrap();
    assert_eq!(fix_one.extract_state(&model), vec![false, true, false]);
    assert_eq!(fix_two.extract_state(&model), vec![true, true, true]);
}

/// Two fixed points (010 and 111) within distance one and two of a
/// specification (000 and 101).
#[test]
fn two_fixed_point_may() {
    let (bn, a, b, c) = make_two_fixed_points_network();

    let one_half = confidence(0.5);
    let mut spec_one = StateSpecification::default();
    spec_one.assert_may(a, false, &one_half);
    spec_one.assert_may(b, false, &one_half);
    spec_one.assert_may(c, false, &one_half);

    let mut spec_two = StateSpecification::default();
    spec_two.assert_may(a, true, &one_half);
    spec_two.assert_may(b, false, &one_half);
    spec_two.assert_may(c, true, &one_half);

    let mut problem = InferenceProblem::new(bn);
    let fix_one = problem.make_state("fix-1");
    let fix_two = problem.make_state("fix-2");
    problem.assert_fixed_point("fix-1");
    problem.assert_fixed_point("fix-2");
    problem.assert_state_observation("fix-1", &spec_one);
    problem.assert_state_observation("fix-2", &spec_two);

    let solver = problem.build_solver();
    assert_eq!(solver.check(&[]), SatResult::Sat);
    let model = solver.get_model().unwrap();
    assert_eq!(fix_one.extract_state(&model), vec![false, true, false]);
    assert_eq!(fix_two.extract_state(&model), vec![true, true, true]);
}

/// One fixed point out of two (010 and 111) within distance two of the
/// specification (001): the weights decide which.
#[test]
fn one_in_two_fixed_point_optimize() {
    // 0.25 + 0.25 < 0.66 + 0.25
    let two_over_three = confidence(0.66);
    let one_over_four = confidence(0.25);

    // First, such that `010` is the optimal fixed point.
    let (bn, a, b, c) = make_two_fixed_points_network();
    let mut specification = StateSpecification::default();
    specification.assert_may(a, false, &two_over_three);
    specification.assert_may(b, false, &one_over_four);
    specification.assert_may(c, true, &one_over_four);

    let mut problem = InferenceProblem::new(bn);
    let fix = problem.make_state("fix");
    problem.assert_fixed_point("fix");
    problem.assert_state_observation("fix", &specification);

    let solver = problem.build_solver();
    assert_eq!(solver.check(&[]), SatResult::Sat);
    let model = solver.get_model().unwrap();
    assert_eq!(fix.extract_state(&model), vec![false, true, false]);

    // Second, such that `111` is preferred.
    let (bn, a, b, c) = make_two_fixed_points_network();
    let mut specification = StateSpecification::default();
    specification.assert_may(a, false, &one_over_four);
    specification.assert_may(b, false, &one_over_four);
    specification.assert_may(c, true, &two_over_three);

    let mut problem = InferenceProblem::new(bn);
    let fix = problem.make_state("fix");
    problem.assert_fixed_point("fix");
    problem.assert_state_observation("fix", &specification);

    let solver = problem.build_solver();
    assert_eq!(solver.check(&[]), SatResult::Sat);
    let model = solver.get_model().unwrap();
    assert_eq!(fix.extract_state(&model), vec![true, true, true]);
}
