use biodivine_algo_smt_inference::decision_diagram::table_diagram;
use biodivine_algo_smt_inference::truth_table::{function_table, row_inputs, table_rows};
use biodivine_algo_smt_inference::smt_state::{constants_coincide, names_related};
use biodivine_algo_smt_inference::{
    boolean_symbol, fn_update_to_smt, BinaryOp, Confidence, Dataset, FnUpdate, InferenceProblem, Monotonicity,
    NetworkModel, Regulation, SmtState, StateSpecification, UninterpretedFunction,
};
use z3::ast::Bool;
use z3::{FuncDecl, SatResult, Sort};

fn names(items: &[&str]) -> Vec<String> {
    items.iter().map(|s| s.to_string()).collect()
}

fn var(index: usize) -> Box<FnUpdate> {
    Box::new(FnUpdate::Var(index))
}

fn binary(op: BinaryOp) -> FnUpdate {
    FnUpdate::Binary(op, var(0), var(1))
}

/// `a` and `b` are inputs that keep their value, `c` follows `f(a, b)`.
fn network(regulations: Vec<Regulation>) -> NetworkModel {
    NetworkModel::new(
        names(&["a", "b", "c"]),
        regulations,
        vec![UninterpretedFunction { name: "f".to_string(), arity: 2 }],
        vec![
            Some(FnUpdate::Var(0)),
            Some(FnUpdate::Var(1)),
            Some(FnUpdate::Param(0, vec![FnUpdate::Var(0), FnUpdate::Var(1)])),
        ],
    )
    .unwrap()
}

fn assertions(problem: &InferenceProblem) -> Vec<String> {
    problem.build_solver().get_assertions().iter().map(|a| a.to_string()).collect()
}

fn flat(text: String) -> String {
    text.split_whitespace().collect::<Vec<_>>().join(" ")
}

#[test]
fn update_functions_become_terms_of_the_same_shape() {
    let variables = vec![Bool::new_const("p"), Bool::new_const("q")];
    let sort = Sort::bool();
    let functions = vec![
        FuncDecl::new("f", &[&sort, &sort], &sort),
        FuncDecl::new("g", &[], &sort),
    ];
    let term = |update: &FnUpdate| fn_update_to_smt(update, &variables, &functions).to_string();
    assert_eq!(term(&FnUpdate::Const(true)), "true");
    assert_eq!(term(&FnUpdate::Const(false)), "false");
    assert_eq!(term(&FnUpdate::Var(0)), "p");
    assert_eq!(term(&FnUpdate::Var(1)), "q");
    assert_eq!(term(&FnUpdate::Not(var(1))), "(not q)");
    assert_eq!(term(&binary(BinaryOp::And)), "(and p q)");
    assert_eq!(term(&binary(BinaryOp::Or)), "(or p q)");
    assert_eq!(term(&binary(BinaryOp::Xor)), "(xor p q)");
    assert_eq!(term(&binary(BinaryOp::Iff)), "(= p q)");
    assert_eq!(term(&binary(BinaryOp::Imp)), "(=> p q)");
    assert_eq!(term(&FnUpdate::Param(1, vec![])), "g");
    assert_eq!(
        term(&FnUpdate::Param(0, vec![FnUpdate::Var(1), FnUpdate::Const(false)])),
        "(f q false)"
    );
    assert_eq!(
        term(&FnUpdate::Binary(
            BinaryOp::Imp,
            Box::new(FnUpdate::Param(
                0,
                vec![FnUpdate::Not(var(0)), FnUpdate::Param(1, vec![])]
            )),
            Box::new(binary(BinaryOp::Xor)),
        )),
        "(=> (f (not p) g) (xor p q))"
    );
}

#[test]
fn a_symbol_is_made_for_a_name_that_the_solver_can_take() {
    let f = boolean_symbol("h", 2).unwrap();
    assert_eq!(f.name(), "h");
    assert_eq!(f.arity(), 2);
    let variables = vec![Bool::new_const("p"), Bool::new_const("q")];
    let update = FnUpdate::Param(0, vec![FnUpdate::Var(1), FnUpdate::Var(0)]);
    assert_eq!(fn_update_to_smt(&update, &variables, &vec![f]).to_string(), "(h q p)");
    assert!(boolean_symbol("h\0", 2).is_none());
    assert!(boolean_symbol("", 0).is_none());
    assert!(boolean_symbol("g", 0).is_some());
    if usize::BITS > 32 {
        assert!(boolean_symbol("h", u32::MAX as usize + 1).is_none());
    }
}

#[test]
fn names_of_states_are_alike_if_one_extends_the_other() {
    assert!(names_related("s", "s"));
    assert!(names_related("s", "s_a"));
    assert!(names_related("s_a", "s"));
    assert!(names_related("", "_x"));
    assert!(names_related("", ""));
    assert!(!names_related("s", "sa"));
    assert!(!names_related("s", "t_a"));
    assert!(!names_related("s_a", "s_b"));
    assert!(!names_related("fix-1", "fix-2"));
    assert!(!names_related("é", "é€"));
    assert!(names_related("é", "é_€"));
}

#[test]
fn states_share_a_constant_only_where_two_names_come_to_one() {
    let plain: Vec<String> = vec!["a".to_string(), "b".to_string(), "c".to_string()];
    assert!(constants_coincide("s", "s", &plain));
    assert!(!constants_coincide("s", "s_a", &plain));
    assert!(!constants_coincide("s", "t", &plain));
    assert!(!constants_coincide("s", "s", &vec![]));
    // `x_s_a_b` is the constant of `a_b` in `s` and of `b` in `s_a`.
    let nested: Vec<String> = vec!["a_b".to_string(), "b".to_string()];
    assert!(constants_coincide("s", "s_a", &nested));
    assert!(constants_coincide("s_a", "s", &nested));
    assert!(!constants_coincide("s", "s_b", &nested));
    assert!(!constants_coincide("s", "sa", &nested));
}

#[test]
fn states_can_be_declared_once_and_apart() {
    // The components are `a`, `b` and `c`.
    let mut problem = InferenceProblem::new(network(vec![]));
    assert!(problem.can_declare("s"));
    assert!(!problem.can_declare("s\0"));
    problem.make_state("s");
    assert!(!problem.can_declare("s"));
    assert!(problem.can_declare("s_a"));
    assert!(problem.can_declare("sa"));
    let stored = problem.make_state("s_a");
    let terms: Vec<String> = stored.make_smt_vars().iter().map(|t| t.to_string()).collect();
    assert_eq!(terms, vec!["x_s_a_a", "x_s_a_b", "x_s_a_c"]);
    problem.make_state("t_1");
    assert!(problem.can_declare("t"));
    assert!(problem.can_declare("t_2"));
}

#[test]
fn a_state_whose_constant_another_state_has_cannot_be_declared() {
    let nested = NetworkModel::new(
        vec!["a_b".to_string(), "b".to_string()],
        vec![],
        vec![],
        vec![Some(FnUpdate::Const(true)), Some(FnUpdate::Var(0))],
    )
    .unwrap();
    let mut problem = InferenceProblem::new(nested);
    problem.make_state("s");
    assert!(!problem.can_declare("s_a"));
    assert!(problem.can_declare("s_b"));
    assert!(problem.can_declare("s_a_b"));
    problem.make_state("s_b");
    assert!(problem.contains_state("s_b"));
}

#[test]
fn a_state_has_one_constant_for_each_component() {
    let state = SmtState::new("s-1", &network(vec![]));
    assert_eq!(state.name(), "s-1");
    assert_eq!(state.len(), 3);
    let terms: Vec<String> = state.make_smt_vars().iter().map(|t| t.to_string()).collect();
    assert_eq!(terms, vec!["x_s-1_a", "x_s-1_b", "x_s-1_c"]);
    let terms: Vec<String> = state.iter_smt_vars().iter().map(|t| t.to_string()).collect();
    assert_eq!(terms, vec!["x_s-1_a", "x_s-1_b", "x_s-1_c"]);
    assert_eq!(state.get_smt_var(1).to_string(), "x_s-1_b");
    let pairs: Vec<(usize, String)> =
        state.make_smt_var_map().iter().map(|(i, t)| (*i, t.to_string())).collect();
    assert_eq!(
        pairs,
        vec![(0, "x_s-1_a".to_string()), (1, "x_s-1_b".to_string()), (2, "x_s-1_c".to_string())]
    );
    assert_eq!(state.iter_smt_var_map().len(), 3);
    let copy = state.clone();
    assert_eq!(copy.name(), "s-1");
    assert_eq!(copy.get_smt_var(2).to_string(), "x_s-1_c");
}

#[test]
fn the_query_holds_observations_then_fixed_points_then_regulations() {
    let mut problem = InferenceProblem::new(network(vec![
        Regulation { regulator: 0, target: 2, observable: true, monotonicity: None },
        Regulation {
            regulator: 1,
            target: 2,
            observable: false,
            monotonicity: Some(Monotonicity::Inhibition),
        },
        Regulation {
            regulator: 0,
            target: 2,
            observable: false,
            monotonicity: Some(Monotonicity::Activation),
        },
    ]));
    problem.make_state("t");
    problem.make_state("s");
    problem.assert_fixed_point("s");
    let mut observation = StateSpecification::new();
    observation.assert_must(2, false);
    observation.assert_may(1, true, &Confidence::new(3, 4).unwrap());
    observation.assert_must(0, true);
    problem.assert_state_observation("t", &observation);
    let mut observation = StateSpecification::new();
    observation.assert_must(1, false);
    problem.assert_state_observation("s", &observation);

    let hard: Vec<String> = assertions(&problem).into_iter().map(flat).collect();
    assert_eq!(
        hard,
        vec![
            "(not x_s_b)",
            "x_t_a",
            "(not x_t_c)",
            "(= x_s_a x_s_a)",
            "(= x_s_b x_s_b)",
            "(= x_s_c (f x_s_a x_s_b))",
            "(not (= (f true x_o_0_2_b) (f false x_o_0_2_b)))",
            // The solver prints a quantifier with the weight of its body.
            "(forall ((x_inh_1_2_a Bool) (x_inh_1_2_c Bool)) \
             (! (=> (f x_inh_1_2_a true) (f x_inh_1_2_a false)) :weight 0))",
            "(forall ((x_act_0_2_b Bool) (x_act_0_2_c Bool)) \
             (! (=> (f false x_act_0_2_b) (f true x_act_0_2_b)) :weight 0))",
        ]
    );
    let text = flat(problem.build_solver().to_string());
    assert!(text.contains("(assert-soft x_t_b :weight 0.75)") || text.contains(":weight (/ 3.0 4.0)"));
}

#[test]
fn soft_constraints_never_make_the_query_unsatisfiable() {
    let mut problem = InferenceProblem::new(network(vec![]));
    let state = problem.make_state("s");
    problem.assert_fixed_point("s");
    let mut observation = StateSpecification::new();
    observation.assert_must(0, true);
    observation.assert_may(0, false, &Confidence::new(9, 10).unwrap());
    problem.assert_state_observation("s", &observation);
    // The later assertion on the component has taken the place of the first.
    let solver = problem.build_solver();
    assert_eq!(solver.check(&[]), SatResult::Sat);
    let model = solver.get_model().unwrap();
    assert_eq!(state.try_extract_state(&model).map(|values| values[0]), Some(false));
}

#[test]
fn values_are_read_from_a_model() {
    let mut problem = InferenceProblem::new(network(vec![]));
    let state = problem.make_state("s");
    let other = SmtState::new("elsewhere", &network(vec![]));
    assert!(problem.contains_state("s"));
    assert!(!problem.contains_state("elsewhere"));
    assert_eq!(problem.get_state("s").name(), "s");
    let mut observation = StateSpecification::new();
    observation.assert_must(0, true);
    observation.assert_must(1, false);
    observation.assert_must(2, true);
    problem.assert_state_observation("s", &observation);
    let solver = problem.build_solver();
    assert_eq!(solver.check(&[]), SatResult::Sat);
    let model = solver.get_model().unwrap();
    assert_eq!(state.extract_state(&model), vec![true, false, true]);
    assert_eq!(state.try_extract_state(&model), Some(vec![true, false, true]));
    assert_eq!(state.extract_state_map(&model), vec![(0, true), (1, false), (2, true)]);
    // The model says nothing of a state that the query does not hold.
    assert_eq!(other.try_extract_state(&model), None);
}

#[test]
fn rows_of_a_truth_table_count_in_binary() {
    assert_eq!(table_rows(0), Some(1));
    assert_eq!(table_rows(1), Some(2));
    assert_eq!(table_rows(10), Some(1024));
    assert_eq!(table_rows(usize::BITS as usize - 1), Some(1 << (usize::BITS - 1)));
    assert_eq!(table_rows(usize::BITS as usize), None);
    assert_eq!(table_rows(usize::MAX), None);
    assert_eq!(row_inputs(0, 3), vec![false, false, false]);
    assert_eq!(row_inputs(1, 3), vec![true, false, false]);
    assert_eq!(row_inputs(6, 3), vec![false, true, true]);
    assert_eq!(row_inputs(6, 2), vec![false, true]);
    assert_eq!(row_inputs(5, 0), Vec::<bool>::new());
}

#[test]
fn a_truth_table_is_read_from_a_model() {
    let sort = Sort::bool();
    let g = FuncDecl::new("g", &[&sort, &sort, &sort], &sort);
    let call = |a: bool, b: bool, c: bool| {
        g.apply(&[&Bool::from_bool(a), &Bool::from_bool(b), &Bool::from_bool(c)]).as_bool().unwrap()
    };
    let solver = z3::Solver::new();
    // `g` is true exactly at (1,0,0) and (0,1,1).
    for row in 0..8usize {
        let (a, b, c) = (row & 1 == 1, row & 2 == 2, row & 4 == 4);
        let value = (a, b, c) == (true, false, false) || (a, b, c) == (false, true, true);
        solver.assert(call(a, b, c).iff(Bool::from_bool(value)));
    }
    assert_eq!(solver.check(), SatResult::Sat);
    let model = solver.get_model().unwrap();
    let table = function_table(&model, &g, 3).unwrap();
    assert_eq!(table, vec![false, true, false, false, false, false, true, false]);

    let (variables, diagram) = table_diagram(3, &table).unwrap();
    assert_eq!(variables.num_vars(), 3);
    assert_eq!(
        diagram,
        variables.eval_expression_string("(x_0 & !x_1 & !x_2) | (!x_0 & x_1 & x_2)")
    );
}

#[test]
fn a_symbol_without_arguments_has_a_table_of_one_row() {
    let sort = Sort::bool();
    let g = FuncDecl::new("g0", &[], &sort);
    let solver = z3::Solver::new();
    solver.assert(g.apply(&[]).as_bool().unwrap().not());
    assert_eq!(solver.check(), SatResult::Sat);
    let model = solver.get_model().unwrap();
    assert_eq!(function_table(&model, &g, 0), Some(vec![false]));
    // The symbol is the constant of its name.
    let update = FnUpdate::Param(0, vec![]);
    let term = fn_update_to_smt(&update, &vec![], &vec![g]);
    assert_eq!(term, Bool::new_const("g0"));
}

#[test]
fn a_symbol_that_the_model_says_nothing_of_has_no_table() {
    let sort = Sort::bool();
    let known = FuncDecl::new("known", &[&sort], &sort);
    let unknown = FuncDecl::new("unknown", &[&sort], &sort);
    let free = FuncDecl::new("free", &[], &sort);
    let solver = z3::Solver::new();
    let at = |value: bool| known.apply(&[&Bool::from_bool(value)]).as_bool().unwrap();
    solver.assert(at(true));
    solver.assert(at(false).not());
    assert_eq!(solver.check(), SatResult::Sat);
    let model = solver.get_model().unwrap();
    assert_eq!(function_table(&model, &known, 1), Some(vec![false, true]));
    // The model is read as it stands: nothing is made up for the others.
    assert_eq!(function_table(&model, &unknown, 1), None);
    assert_eq!(function_table(&model, &free, 0), None);
    assert_eq!(function_table(&model, &known, 1), Some(vec![false, true]));
}

#[test]
fn a_truth_table_becomes_a_decision_diagram() {
    let (variables, diagram) = table_diagram(2, &vec![false, false, true, false]).unwrap();
    assert_eq!(diagram, variables.eval_expression_string("!x_0 & x_1"));
    let (variables, diagram) = table_diagram(1, &vec![true, true]).unwrap();
    assert_eq!(diagram, variables.mk_true());
    let (variables, diagram) = table_diagram(2, &vec![false; 4]).unwrap();
    assert_eq!(diagram, variables.mk_false());
    let (variables, diagram) = table_diagram(0, &vec![true]).unwrap();
    assert_eq!(variables.num_vars(), 0);
    assert!(diagram.is_true());
    let (_, diagram) = table_diagram(0, &vec![false]).unwrap();
    assert!(diagram.is_false());
}

/// A fully specified model of four variables with activations only. Its
/// fixed points are `0000`, `0100` and `1111`.
fn toy_network() -> NetworkModel {
    let activation = |regulator: usize, target: usize| Regulation {
        regulator,
        target,
        observable: true,
        monotonicity: Some(Monotonicity::Activation),
    };
    NetworkModel::new(
        names(&["v_1", "v_2", "v_3", "v_4"]),
        vec![
            activation(2, 0),
            activation(0, 1),
            activation(1, 1),
            activation(3, 2),
            activation(0, 3),
            activation(1, 3),
        ],
        vec![],
        vec![
            Some(FnUpdate::Var(2)),
            Some(FnUpdate::Binary(BinaryOp::Or, var(1), var(0))),
            Some(FnUpdate::Var(3)),
            Some(FnUpdate::Binary(BinaryOp::And, var(0), var(1))),
        ],
    )
    .unwrap()
}

#[test]
fn test_toy_bn_4v_bn() {
    // Two fixed points are asked for, `0110` (fp_1) and `0001` (fp_2), with
    // weight one half on each value.
    let dataset_spec =
        Dataset::from_csv("ID,v_1,v_2,v_3,v_4\nfp_1,0,1,1,0\nfp_2,0,0,0,1\n").unwrap();
    let inference_problem = dataset_spec.to_inference_problem(toy_network()).unwrap();
    let fix_one = inference_problem.get_state("fp_1");
    let fix_two = inference_problem.get_state("fp_2");

    // Both fixed points differ in a single value from what was asked for.
    let solver = inference_problem.build_solver();
    assert_eq!(solver.check(&[]), SatResult::Sat);

    let model = solver.get_model().unwrap();
    assert_eq!(fix_one.extract_state(&model), vec![false, true, false, false]);
    assert_eq!(fix_two.extract_state(&model), vec![false, false, false, false]);
}

#[test]
fn a_dataset_becomes_a_problem_of_fixed_points() {
    let dataset = Dataset::from_csv("ID,v_1,v_2,v_3,v_4\nhigh,1,1,1,1\nlow,0,*,0,0\n").unwrap();
    let problem = dataset.to_inference_problem(toy_network()).unwrap();
    assert!(problem.contains_state("high"));
    assert!(problem.contains_state("low"));
    assert!(!problem.contains_state("fp_1"));
    let solver = problem.build_solver();
    assert_eq!(solver.check(&[]), SatResult::Sat);
    let model = solver.get_model().unwrap();
    assert_eq!(problem.get_state("high").extract_state(&model), vec![true; 4]);
    let low = problem.get_state("low").extract_state(&model);
    assert_eq!((low[0], low[2], low[3]), (false, false, false));
}
