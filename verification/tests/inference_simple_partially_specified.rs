use biodivine_algo_smt_inference::{
    BinaryOp, Confidence, FnUpdate, InferenceProblem, Monotonicity, NetworkModel, Regulation,
    StateSpecification, UninterpretedFunction,
};
use biodivine_lib_param_bn::BooleanNetwork;
use num_rational::BigRational;
use num_traits::{FromPrimitive, ToPrimitive};
use z3::SatResult;

fn convert_update(update: &biodivine_lib_param_bn::FnUpdate) -> FnUpdate {
    match update {
        biodivine_lib_param_bn::FnUpdate::Const(value) => FnUpdate::Const(*value),
        biodivine_lib_param_bn::FnUpdate::Var(id) => FnUpdate::Var(id.to_index()),
        biodivine_lib_param_bn::FnUpdate::Param(id, args) => {
            FnUpdate::Param(id.to_index(), args.iter().map(convert_update).collect())
        }
        biodivine_lib_param_bn::FnUpdate::Not(inner) => {
            FnUpdate::Not(Box::new(convert_update(inner)))
        }
        biodivine_lib_param_bn::FnUpdate::Binary(op, left, right) => {
            let op = match op {
                biodivine_lib_param_bn::BinaryOp::And => BinaryOp::And,
                biodivine_lib_param_bn::BinaryOp::Or => BinaryOp::Or,
                biodivine_lib_param_bn::BinaryOp::Xor => BinaryOp::Xor,
                biodivine_lib_param_bn::BinaryOp::Iff => BinaryOp::Iff,
                biodivine_lib_param_bn::BinaryOp::Imp => BinaryOp::Imp,
            };
            FnUpdate::Binary(op, Box::new(convert_update(left)), Box::new(convert_update(right)))
        }
    }
}

fn convert_network(network: &BooleanNetwork) -> NetworkModel {
    let variables = network
        .variables()
        .map(|id| network.get_variable_name(id).clone())
        .collect();
    let regulations = network
        .as_graph()
        .regulations()
        .map(|reg| Regulation {
            regulator: reg.regulator.to_index(),
            target: reg.target.to_index(),
            observable: reg.observable,
            monotonicity: reg.monotonicity.map(|m| match m {
                biodivine_lib_param_bn::Monotonicity::Activation => Monotonicity::Activation,
                biodivine_lib_param_bn::Monotonicity::Inhibition => Monotonicity::Inhibition,
            }),
        })
        .collect();
    let parameters = network
        .parameters()
        .map(|id| UninterpretedFunction {
            name: network[id].get_name().clone(),
            arity: usize::try_from(network[id].get_arity()).unwrap(),
        })
        .collect();
    let update_functions = network
        .variables()
        .map(|id| network.get_update_function(id).as_ref().map(convert_update))
        .collect();
    NetworkModel::new(variables, regulations, parameters, update_functions).unwrap()
}

fn confidence(value: f32) -> Confidence {
    let exact = BigRational::from_f32(value).unwrap();
    Confidence::new(exact.numer().to_u128().unwrap(), exact.denom().to_u128().unwrap()).unwrap()
}

/// A partially specified network with variables `a`, `b`, `c` and a single
/// fixed point, `010` or `011`, depending on the function chosen for `f`.
/// The regulations leave two meanings for `f`: conjunction and disjunction.
fn make_one_fixed_point_network() -> (NetworkModel, usize, usize, usize) {
    let bn = BooleanNetwork::try_from(
        r#"
            a -> c
            b -> c
            $a: false
            $b: true
            $c: f(a, b)
        "#,
    )
    .unwrap();
    (convert_network(&bn), 0, 1, 2)
}

/// Whether the model gives `f` the meaning of the expression over `x_0` and
/// `x_1`, and the given truth table, whose rows are `f(0,0)`, `f(1,0)`,
/// `f(0,1)`, `f(1,1)`.
fn means(problem: &InferenceProblem, model: &z3::Model, expression: &str, table: [bool; 4]) {
    let (bdd_ctx, bdd_fn) = problem.extract_uninterpreted_symbol(model, 0).unwrap();
    assert_eq!(bdd_ctx.num_vars(), 2);
    assert_eq!(bdd_fn, bdd_ctx.eval_expression_string(expression));
    assert_eq!(problem.extract_truth_table(model, 0), Some(table.to_vec()));
}

#[test]
fn one_fixed_point_both_possible() {
    // Both fixed points of the network are possible.
    let (bn, a, b, c) = make_one_fixed_point_network();

    let mut specification = StateSpecification::default();
    specification.assert_must(a, false);
    specification.assert_must(b, true);
    specification.assert_must(c, false);

    let mut problem = InferenceProblem::new(bn);
    let fix = problem.make_state("fix");
    problem.assert_fixed_point("fix");
    problem.assert_state_observation("fix", &specification);

    let solver = problem.build_solver();
    assert_eq!(solver.check(&[]), SatResult::Sat);
    let model = solver.get_model().unwrap();
    assert_eq!(fix.extract_state(&model), vec![false, true, false]);
    means(&problem, &model, "x_0 & x_1", [false, false, false, true]);

    let (bn, a, b, c) = make_one_fixed_point_network();
    let mut specification = StateSpecification::default();
    specification.assert_must(a, false);
    specification.assert_must(b, true);
    specification.assert_must(c, true);

    let mut problem = InferenceProblem::new(bn);
    let fix = problem.make_state("fix");
    problem.assert_fixed_point("fix");
    problem.assert_state_observation("fix", &specification);

    let solver = problem.build_solver();
    assert_eq!(solver.check(&[]), SatResult::Sat);
    let model = solver.get_model().unwrap();
    assert_eq!(fix.extract_state(&model), vec![false, true, true]);
    means(&problem, &model, "x_0 | x_1", [false, true, true, true]);
}

#[test]
fn one_fixed_point_optimize() {
    // The specification 110 has distance 1 to 010 and distance 2 to 011, so
    // the conjunction is preferred.
    let (bn, a, b, c) = make_one_fixed_point_network();

    let one_half = confidence(0.5);
    let mut specification = StateSpecification::default();
    specification.assert_may(a, true, &one_half);
    specification.assert_may(b, true, &one_half);
    specification.assert_may(c, false, &one_half);

    let mut problem = InferenceProblem::new(bn);
    let fix = problem.make_state("fix");
    problem.assert_fixed_point("fix");
    problem.assert_state_observation("fix", &specification);

    let solver = problem.build_solver();
    assert_eq!(solver.check(&[]), SatResult::Sat);
    let model = solver.get_model().unwrap();
    assert_eq!(fix.extract_state(&model), vec![false, true, false]);
    means(&problem, &model, "x_0 & x_1", [false, false, false, true]);

    // The other way round: the specification 111 has distance 1 to 011 and
    // distance 2 to 010, so the disjunction is preferred.
    let (bn, a, b, c) = make_one_fixed_point_network();
    let one_half = confidence(0.5);
    let mut specification = StateSpecification::default();
    specification.assert_may(a, true, &one_half);
    specification.assert_may(b, true, &one_half);
    specification.assert_may(c, true, &one_half);

    let mut problem = InferenceProblem::new(bn);
    let fix = problem.make_state("fix");
    problem.assert_fixed_point("fix");
    problem.assert_state_observation("fix", &specification);

    let solver = problem.build_solver();
    assert_eq!(solver.check(&[]), SatResult::Sat);
    let model = solver.get_model().unwrap();
    assert_eq!(fix.extract_state(&model), vec![false, true, true]);
    means(&problem, &model, "x_0 | x_1", [false, true, true, true]);
}
