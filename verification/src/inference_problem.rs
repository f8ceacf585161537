//! The inference problem: a network, the states that are supposed to exist in
//! it, what was observed of them, and the query for the solver that all of
//! this comes to.

use crate::confidence::Confidence;
use crate::expression_generators::fn_update_to_smt;
use crate::formula::{literal, quantify, translate, Formula, Soft};
use crate::name_map::{
    has_key, key_set, lemma_map_entries, lemma_map_entries_upsert, lemma_upsert,
    lemma_upsert_entries, lookup, map_entries, sorted, upsert, NameMap,
};
use crate::network::{lemma_none_open, FnUpdate, Monotonicity, NetworkModel, Regulation};
use crate::smt::{
    formulas, hard_constraints, query_assert, query_assert_soft, query_new, soft_constraints,
    symbol_arities, symbol_arity, symbol_is_boolean, symbol_name, symbol_names, symbol_new,
    term_const, term_forall, term_formula, term_iff, term_implies, term_not,
};
use crate::smt_state::{
    constants_coincide, lemma_components_share_no_constant, lemma_share_constant_symmetric,
    share_constant, state_atoms, state_variable_name, SmtState,
};
use crate::state_specification::{
    lemma_optional_sound, lemma_required_sound, optional_part, required_part, Assertion,
    StateSpecification,
};
use crate::text::{
    c_safe, decimal, is_c_safe, lemma_c_safe_concat, lemma_decimal_c_safe, names, push_decimal,
};
use crate::decision_diagram::{bdd_models, bdd_variable_count, table_diagram, true_rows};
use crate::truth_table::{function_table, table_defined, table_size, truth_table};
use biodivine_lib_bdd::{Bdd, BddVariableSet};
use vstd::prelude::*;
use vstd::string::*;
use z3::ast::Bool;
use z3::{FuncDecl, Model, Optimize};

verus! {

/// Whether every assertion speaks of one of the first `n` components.
pub open spec fn within(assertions: Seq<Assertion>, n: nat) -> bool {
    forall|i: int| 0 <= i < assertions.len() ==> (#[trigger] assertions[i]).variable < n
}

/// The mandatory observations of a state as formulas: each says that the
/// constant of its component has the observed value.
pub open spec fn required_formulas(atoms: Seq<Formula>, required: Seq<(usize, bool)>) -> Seq<
    Formula,
> {
    Seq::new(required.len(), |i: int| literal(atoms[required[i].0 as int], required[i].1))
}

/// The preferential observations of a state as soft constraints, each with
/// its confidence as the weight.
pub open spec fn optional_softs(
    atoms: Seq<Formula>,
    optional: Seq<(usize, (bool, Confidence))>,
) -> Seq<Soft> {
    Seq::new(
        optional.len(),
        |i: int|
            Soft {
                formula: literal(atoms[optional[i].0 as int], optional[i].1.0),
                weight: optional[i].1.1,
            },
    )
}

/// The hard constraints that the observations come to: state after state in
/// the order of their names, and within a state in the order of the
/// components.
pub open spec fn observation_hard(
    variables: Seq<Seq<char>>,
    specs: Seq<(Seq<char>, Seq<Assertion>)>,
) -> Seq<Formula>
    decreases specs.len(),
{
    if specs.len() == 0 {
        Seq::empty()
    } else {
        observation_hard(variables, specs.drop_last()) + required_formulas(
            state_atoms(specs.last().0, variables),
            required_part(specs.last().1),
        )
    }
}

/// The soft constraints that the observations come to, in the same order.
pub open spec fn observation_soft(
    variables: Seq<Seq<char>>,
    specs: Seq<(Seq<char>, Seq<Assertion>)>,
) -> Seq<Soft>
    decreases specs.len(),
{
    if specs.len() == 0 {
        Seq::empty()
    } else {
        observation_soft(variables, specs.drop_last()) + optional_softs(
            state_atoms(specs.last().0, variables),
            optional_part(specs.last().1),
        )
    }
}

/// That a state is a fixed point: for each component, its constant is
/// equivalent to its update function on the state.
pub open spec fn fixed_point_formulas(
    atoms: Seq<Formula>,
    updates: Seq<Option<FnUpdate>>,
    functions: Seq<Seq<char>>,
) -> Seq<Formula> {
    Seq::new(
        atoms.len(),
        |i: int|
            Formula::Iff(
                Box::new(atoms[i]),
                Box::new(translate(updates[i]->Some_0, atoms, functions)),
            ),
    )
}

/// The fixed-point constraints of the given states, state after state in the
/// order of their names.
pub open spec fn fixed_point_hard(network: NetworkModel, states: Seq<(Seq<char>, ())>) -> Seq<
    Formula,
>
    decreases states.len(),
{
    if states.len() == 0 {
        Seq::empty()
    } else {
        fixed_point_hard(network, states.drop_last()) + fixed_point_formulas(
            state_atoms(states.last().0, network.variables()),
            network.update_functions(),
            network.parameter_names(),
        )
    }
}

/// The name of the auxiliary state of a regulation: a prefix, then the
/// indices of regulator and target.
pub open spec fn regulation_state_name(prefix: Seq<char>, regulation: Regulation) -> Seq<char> {
    prefix + "_"@ + decimal(regulation.regulator as nat) + "_"@ + decimal(
        regulation.target as nat,
    )
}

/// The prefix of the auxiliary state that a monotonicity is stated on.
pub open spec fn monotonicity_prefix(monotonicity: Monotonicity) -> Seq<char> {
    match monotonicity {
        Monotonicity::Activation => "act"@,
        Monotonicity::Inhibition => "inh"@,
    }
}

/// Whether a state of the given name shares a constant with an auxiliary
/// state that the regulation brings into the query, in a network of the
/// given components.
pub open spec fn regulation_clash(
    name: Seq<char>,
    regulation: Regulation,
    variables: Seq<Seq<char>>,
) -> bool {
    ||| regulation.observable && share_constant(
        name,
        regulation_state_name("o"@, regulation),
        variables,
    )
    ||| regulation.monotonicity matches Some(m) && share_constant(
        name,
        regulation_state_name(monotonicity_prefix(m), regulation),
        variables,
    )
}

/// Whether a state of the given name shares no constant with the states of
/// the given names and with the auxiliary states of the regulations, in a
/// network of the given components.
pub open spec fn name_free(
    name: Seq<char>,
    states: Seq<(Seq<char>, ())>,
    regulations: Seq<Regulation>,
    variables: Seq<Seq<char>>,
) -> bool {
    &&& forall|i: int|
        0 <= i < states.len() ==> !share_constant(name, (#[trigger] states[i]).0, variables)
    &&& forall|r: int|
        0 <= r < regulations.len() ==> !regulation_clash(
            name,
            #[trigger] regulations[r],
            variables,
        )
}

/// The update function on a state in which the regulator is forced to
/// `value`.
pub open spec fn forced(
    update: FnUpdate,
    atoms: Seq<Formula>,
    regulator: usize,
    value: bool,
    functions: Seq<Seq<char>>,
) -> Formula {
    translate(update, atoms.update(regulator as int, Formula::Const(value)), functions)
}

/// That a regulation is observable: on its auxiliary state, which nothing
/// else constrains, the update function of the target differs between the
/// regulator forced to true and forced to false.
pub open spec fn observability_formula(network: NetworkModel, regulation: Regulation) -> Formula {
    let atoms = state_atoms(regulation_state_name("o"@, regulation), network.variables());
    let update = network.update_functions()[regulation.target as int]->Some_0;
    let functions = network.parameter_names();
    Formula::Not(
        Box::new(
            Formula::Iff(
                Box::new(forced(update, atoms, regulation.regulator, true, functions)),
                Box::new(forced(update, atoms, regulation.regulator, false, functions)),
            ),
        ),
    )
}

/// That a regulation is monotonous: for every value of the other components
/// of its auxiliary state, the update function of the target with the
/// regulator forced to false implies that with the regulator forced to true
/// (activation), or the other way round (inhibition).
pub open spec fn monotonicity_formula(
    network: NetworkModel,
    regulation: Regulation,
    monotonicity: Monotonicity,
) -> Formula {
    let atoms = state_atoms(
        regulation_state_name(monotonicity_prefix(monotonicity), regulation),
        network.variables(),
    );
    let update = network.update_functions()[regulation.target as int]->Some_0;
    let functions = network.parameter_names();
    let on = forced(update, atoms, regulation.regulator, true, functions);
    let off = forced(update, atoms, regulation.regulator, false, functions);
    let body = match monotonicity {
        Monotonicity::Activation => Formula::Implies(Box::new(off), Box::new(on)),
        Monotonicity::Inhibition => Formula::Implies(Box::new(on), Box::new(off)),
    };
    quantify(atoms.remove(regulation.regulator as int), body)
}

/// The structural constraints of one regulation: its observability, if it is
/// flagged observable, then its monotonicity, if it has one.
pub open spec fn regulation_formulas(network: NetworkModel, regulation: Regulation) -> Seq<
    Formula,
> {
    let first = if regulation.observable {
        seq![observability_formula(network, regulation)]
    } else {
        Seq::empty()
    };
    let second = match regulation.monotonicity {
        Some(m) => seq![monotonicity_formula(network, regulation, m)],
        None => Seq::empty(),
    };
    first + second
}

/// The structural constraints of the given regulations, one after the other.
pub open spec fn structural_hard(network: NetworkModel, regulations: Seq<Regulation>) -> Seq<
    Formula,
>
    decreases regulations.len(),
{
    if regulations.len() == 0 {
        Seq::empty()
    } else {
        structural_hard(network, regulations.drop_last()) + regulation_formulas(
            network,
            regulations.last(),
        )
    }
}

/// The hard constraints of a problem: what must have been observed, then that
/// the fixed points are fixed points, then what the regulations demand.
pub open spec fn problem_hard(
    network: NetworkModel,
    specs: Seq<(Seq<char>, Seq<Assertion>)>,
    fixed_points: Seq<(Seq<char>, ())>,
) -> Seq<Formula> {
    observation_hard(network.variables(), specs) + fixed_point_hard(network, fixed_points)
        + structural_hard(network, network.regulations())
}

/// The soft constraints of a problem: what may have been observed.
pub open spec fn problem_soft(
    network: NetworkModel,
    specs: Seq<(Seq<char>, Seq<Assertion>)>,
) -> Seq<Soft> {
    observation_soft(network.variables(), specs)
}

/// What the observations hold as "must": for each state of which something
/// is held so, its name and the mandatory part of its observation, in the
/// order of the observations.
pub open spec fn mandatory(specs: Seq<(Seq<char>, Seq<Assertion>)>) -> Seq<
    (Seq<char>, Seq<(usize, bool)>),
>
    decreases specs.len(),
{
    if specs.len() == 0 {
        Seq::empty()
    } else if required_part(specs.last().1).len() == 0 {
        mandatory(specs.drop_last())
    } else {
        mandatory(specs.drop_last()).push((specs.last().0, required_part(specs.last().1)))
    }
}

/// The hard constraints that mandatory observations come to, state after
/// state.
pub open spec fn mandatory_hard(
    variables: Seq<Seq<char>>,
    musts: Seq<(Seq<char>, Seq<(usize, bool)>)>,
) -> Seq<Formula>
    decreases musts.len(),
{
    if musts.len() == 0 {
        Seq::empty()
    } else {
        mandatory_hard(variables, musts.drop_last()) + required_formulas(
            state_atoms(musts.last().0, variables),
            musts.last().1,
        )
    }
}

/// The hard constraints of the observations come of what is held as "must"
/// alone: a state of which nothing is held so adds none, and of every other
/// state only the mandatory part of the observation is read.
pub proof fn lemma_hard_is_of_mandatory(
    variables: Seq<Seq<char>>,
    specs: Seq<(Seq<char>, Seq<Assertion>)>,
)
    ensures
        observation_hard(variables, specs) == mandatory_hard(variables, mandatory(specs)),
    decreases specs.len(),
{
    if specs.len() > 0 {
        let before = specs.drop_last();
        let last = specs.last();
        lemma_hard_is_of_mandatory(variables, before);
        let added = required_formulas(state_atoms(last.0, variables), required_part(last.1));
        if required_part(last.1).len() == 0 {
            assert(observation_hard(variables, before) + added =~= observation_hard(
                variables,
                before,
            ));
        } else {
            let musts = mandatory(specs);
            assert(musts.drop_last() =~= mandatory(before));
            assert(musts.last() == (last.0, required_part(last.1)));
        }
    }
}

/// Of two problems on one network with the same fixed points, whose
/// observations hold the same as "must", the queries have the same hard
/// constraints, whatever the observations hold as "may" and of whichever
/// states: what is held as "may" is never a hard constraint.
pub proof fn lemma_problem_hard_ignores_optional(
    network: NetworkModel,
    first: Seq<(Seq<char>, Seq<Assertion>)>,
    second: Seq<(Seq<char>, Seq<Assertion>)>,
    fixed_points: Seq<(Seq<char>, ())>,
)
    requires
        mandatory(first) == mandatory(second),
    ensures
        problem_hard(network, first, fixed_points) == problem_hard(network, second, fixed_points),
{
    lemma_hard_is_of_mandatory(network.variables(), first);
    lemma_hard_is_of_mandatory(network.variables(), second);
}

/// Every soft constraint of the observations is one assertion held as "may":
/// it says that the constant of the component has the observed value, and
/// its weight is exactly the confidence of the assertion.
pub proof fn lemma_soft_weights(
    variables: Seq<Seq<char>>,
    specs: Seq<(Seq<char>, Seq<Assertion>)>,
    k: int,
)
    requires
        0 <= k < observation_soft(variables, specs).len(),
    ensures
        exists|i: int, j: int|
            0 <= i < specs.len() && 0 <= j < optional_part(specs[i].1).len() && observation_soft(
                variables,
                specs,
            )[k] == #[trigger] soft_of(variables, specs[i].0, optional_part(specs[i].1)[j]),
    decreases specs.len(),
{
    let before = specs.drop_last();
    let last = specs[specs.len() - 1];
    assert(specs.last() == last);
    let prefix = observation_soft(variables, before);
    if k < prefix.len() {
        lemma_soft_weights(variables, before, k);
        let (i, j) = choose|i: int, j: int|
            0 <= i < before.len() && 0 <= j < optional_part(before[i].1).len() && prefix[k]
                == #[trigger] soft_of(variables, before[i].0, optional_part(before[i].1)[j]);
        assert(before[i] == specs[i]);
        assert(observation_soft(variables, specs)[k] == soft_of(
            variables,
            specs[i].0,
            optional_part(specs[i].1)[j],
        ));
    } else {
        let j = k - prefix.len();
        assert(observation_soft(variables, specs)[k] == soft_of(
            variables,
            specs[specs.len() - 1].0,
            optional_part(specs[specs.len() - 1].1)[j],
        ));
    }
}

/// The soft constraint that an assertion held as "may" of a state comes to.
pub open spec fn soft_of(
    variables: Seq<Seq<char>>,
    state: Seq<char>,
    assertion: (usize, (bool, Confidence)),
) -> Soft {
    Soft {
        formula: literal(state_atoms(state, variables)[assertion.0 as int], assertion.1.0),
        weight: assertion.1.1,
    }
}

/// Whether the symbols are those of the network's uninterpreted functions:
/// Boolean symbols of the same names and arities, each at its index.
pub open spec fn symbols_match(symbols: Seq<FuncDecl>, network: NetworkModel) -> bool {
    &&& symbol_names(symbols) == network.parameter_names()
    &&& symbol_arities(symbols) == network.arities()
    &&& forall|p: int| 0 <= p < symbols.len() ==> symbol_is_boolean(#[trigger] symbols[p])
}

/// Asserts what was observed of one state: the mandatory part as hard
/// constraints, the preferential part as soft ones.
fn assert_observation(solver: &mut Optimize, state: &SmtState, specification: &StateSpecification)
    requires
        specification.wf(),
        within(specification@, state@.len()),
    ensures
        hard_constraints(*final(solver)) == hard_constraints(*old(solver)) + required_formulas(
            state@,
            required_part(specification@),
        ),
        soft_constraints(*final(solver)) == soft_constraints(*old(solver)) + optional_softs(
            state@,
            optional_part(specification@),
        ),
{
    let ghost hard = hard_constraints(*solver);
    let ghost soft = soft_constraints(*solver);
    let required = specification.make_required_assertion_map();
    let ghost required_all = required_formulas(state@, required@);
    let mut i: usize = 0;
    assert(hard + required_all.take(0) =~= hard);
    while i < required.len()
        invariant
            i <= required@.len(),
            required@ == required_part(specification@),
            required_all == required_formulas(state@, required@),
            within(specification@, state@.len()),
            hard_constraints(*solver) == hard + required_all.take(i as int),
            soft_constraints(*solver) == soft,
        decreases required@.len() - i,
    {
        let (bn_var, value) = required[i];
        proof {
            assert(required@.contains(required@[i as int]));
            lemma_required_sound(specification@, required@[i as int]);
        }
        let smt_var = state.get_smt_var(bn_var);
        let assertion = if value {
            smt_var
        } else {
            term_not(&smt_var)
        };
        query_assert(solver, &assertion);
        proof {
            assert(term_formula(assertion) == required_all[i as int]);
            assert(hard + required_all.take(i + 1) =~= (hard + required_all.take(i as int)).push(
                required_all[i as int],
            ));
        }
        i += 1;
    }
    assert(required_all.take(i as int) =~= required_all);
    let optional = specification.make_optional_assertion_map();
    let ghost optional_all = optional_softs(state@, optional@);
    let mut j: usize = 0;
    assert(soft + optional_all.take(0) =~= soft);
    while j < optional.len()
        invariant
            j <= optional@.len(),
            optional@ == optional_part(specification@),
            optional_all == optional_softs(state@, optional@),
            within(specification@, state@.len()),
            specification.wf(),
            hard_constraints(*solver) == hard + required_all,
            soft_constraints(*solver) == soft + optional_all.take(j as int),
        decreases optional@.len() - j,
    {
        let (bn_var, (value, confidence)) = optional[j];
        proof {
            assert(optional@.contains(optional@[j as int]));
            lemma_optional_sound(specification@, optional@[j as int]);
        }
        let smt_var = state.get_smt_var(bn_var);
        let assertion = if value {
            smt_var
        } else {
            term_not(&smt_var)
        };
        query_assert_soft(solver, &assertion, &confidence);
        proof {
            assert(Soft { formula: term_formula(assertion), weight: confidence }
                == optional_all[j as int]);
            assert(soft + optional_all.take(j + 1) =~= (soft + optional_all.take(j as int)).push(
                optional_all[j as int],
            ));
        }
        j += 1;
    }
    assert(optional_all.take(j as int) =~= optional_all);
}

/// Asserts that one state is a fixed point of the network.
fn assert_state_fixed(
    solver: &mut Optimize,
    state: &SmtState,
    network: &NetworkModel,
    symbols: &Vec<FuncDecl>,
)
    requires
        network.wf(),
        network.implicit_parameters() == 0,
        state@.len() == network.variables().len(),
        symbols_match(symbols@, *network),
    ensures
        hard_constraints(*final(solver)) == hard_constraints(*old(solver)) + fixed_point_formulas(
            state@,
            network.update_functions(),
            network.parameter_names(),
        ),
        soft_constraints(*final(solver)) == soft_constraints(*old(solver)),
{
    let ghost hard = hard_constraints(*solver);
    let ghost all = fixed_point_formulas(
        state@,
        network.update_functions(),
        network.parameter_names(),
    );
    let variables = state.make_smt_vars();
    let mut i: usize = 0;
    proof {
        lemma_none_open(network.update_functions());
        assert(hard + all.take(0) =~= hard);
    }
    while i < variables.len()
        invariant
            i <= variables@.len(),
            formulas(variables@) == state@,
            network.wf(),
            state@.len() == network.variables().len(),
            symbols_match(symbols@, *network),
            forall|k: int|
                0 <= k < network.update_functions().len() ==> (
                #[trigger] network.update_functions()[k]) is Some,
            all == fixed_point_formulas(
                state@,
                network.update_functions(),
                network.parameter_names(),
            ),
            hard_constraints(*solver) == hard + all.take(i as int),
            soft_constraints(*solver) == soft_constraints(*old(solver)),
        decreases variables@.len() - i,
    {
        assert(formulas(variables@).len() == variables@.len());
        assert(network.update_functions()[i as int] is Some);
        match network.get_update_function(i) {
            Some(update) => {
                let smt_update = fn_update_to_smt(update, &variables, symbols);
                let assertion = term_iff(&variables[i], &smt_update);
                query_assert(solver, &assertion);
                proof {
                    assert(term_formula(variables@[i as int]) == formulas(variables@)[i as int]);
                    assert(term_formula(assertion) == all[i as int]);
                    assert(hard + all.take(i + 1) =~= (hard + all.take(i as int)).push(
                        all[i as int],
                    ));
                }
            },
            None => {},
        }
        i += 1;
    }
    assert(all.take(i as int) =~= all);
}

/// Whether a state of the given name shares a constant with an auxiliary
/// state of the regulation, in a network of the given components.
pub fn clashes_with_regulation(name: &str, regulation: &Regulation, variables: &Vec<String>) -> (b:
    bool)
    ensures
        b == regulation_clash(name@, *regulation, names(variables@)),
{
    proof {
        reveal_strlit("o");
        reveal_strlit("act");
        reveal_strlit("inh");
        assert(c_safe("o"@));
        assert(c_safe("act"@));
        assert(c_safe("inh"@));
    }
    if regulation.observable {
        let auxiliary = regulation_name("o", regulation);
        if constants_coincide(name, auxiliary.as_str(), variables) {
            return true;
        }
    }
    match regulation.monotonicity {
        Some(m) => {
            let key = match m {
                Monotonicity::Activation => "act",
                Monotonicity::Inhibition => "inh",
            };
            let auxiliary = regulation_name(key, regulation);
            constants_coincide(name, auxiliary.as_str(), variables)
        },
        None => false,
    }
}

/// The auxiliary state of a regulation: a fresh state of the network, named
/// by a prefix and the indices of regulator and target.
fn regulation_state(prefix: &str, regulation: &Regulation, network: &NetworkModel) -> (state:
    SmtState)
    requires
        c_safe(prefix@),
        network.wf(),
    ensures
        state@ == state_atoms(regulation_state_name(prefix@, *regulation), network.variables()),
{
    let name = regulation_name(prefix, regulation);
    SmtState::new(name.as_str(), network)
}

/// The name of the auxiliary state of a regulation.
fn regulation_name(prefix: &str, regulation: &Regulation) -> (name: String)
    requires
        c_safe(prefix@),
    ensures
        name@ == regulation_state_name(prefix@, *regulation),
        c_safe(name@),
{
    let mut name = String::from_str(prefix);
    name.append("_");
    push_decimal(&mut name, regulation.regulator);
    name.append("_");
    push_decimal(&mut name, regulation.target);
    proof {
        reveal_strlit("_");
        assert(c_safe("_"@));
        lemma_decimal_c_safe(regulation.regulator as nat);
        lemma_decimal_c_safe(regulation.target as nat);
        lemma_c_safe_concat(prefix@, "_"@);
        lemma_c_safe_concat(prefix@ + "_"@, decimal(regulation.regulator as nat));
        lemma_c_safe_concat(prefix@ + "_"@ + decimal(regulation.regulator as nat), "_"@);
        lemma_c_safe_concat(
            prefix@ + "_"@ + decimal(regulation.regulator as nat) + "_"@,
            decimal(regulation.target as nat),
        );
    }
    name
}

/// The update function as a term on a state in which the regulator is forced
/// to `value`.
fn forced_update(
    update: &FnUpdate,
    state: &SmtState,
    regulator: usize,
    value: bool,
    symbols: &Vec<FuncDecl>,
) -> (t: Bool)
    requires
        regulator < state@.len(),
        update.valid(state@.len(), symbol_arities(symbols@)),
        forall|p: int| 0 <= p < symbols@.len() ==> symbol_is_boolean(#[trigger] symbols@[p]),
    ensures
        term_formula(t) == forced(*update, state@, regulator, value, symbol_names(symbols@)),
{
    let mut variables = state.make_smt_vars();
    assert(formulas(variables@).len() == variables@.len());
    variables.set(regulator, term_const(value));
    assert(formulas(variables@) =~= state@.update(regulator as int, Formula::Const(value)));
    fn_update_to_smt(update, &variables, symbols)
}

/// Asserts what one regulation demands of the update function of its target.
fn assert_regulation(
    solver: &mut Optimize,
    network: &NetworkModel,
    symbols: &Vec<FuncDecl>,
    regulation: &Regulation,
)
    requires
        network.wf(),
        network.implicit_parameters() == 0,
        symbols_match(symbols@, *network),
        regulation.regulator < network.variables().len(),
        regulation.target < network.variables().len(),
    ensures
        hard_constraints(*final(solver)) == hard_constraints(*old(solver)) + regulation_formulas(
            *network,
            *regulation,
        ),
        soft_constraints(*final(solver)) == soft_constraints(*old(solver)),
{
    let ghost hard = hard_constraints(*solver);
    proof {
        lemma_none_open(network.update_functions());
        assert(network.update_functions()[regulation.target as int] is Some);
        reveal_strlit("o");
        reveal_strlit("act");
        reveal_strlit("inh");
        assert(c_safe("o"@));
        assert(c_safe("act"@));
        assert(c_safe("inh"@));
    }
    match network.get_update_function(regulation.target) {
        Some(update) => {
            if regulation.observable {
                // A state `O` with `update(O[r=0]) != update(O[r=1])`.
                let smt_state = regulation_state("o", regulation, network);
                let on = forced_update(update, &smt_state, regulation.regulator, true, symbols);
                let off = forced_update(update, &smt_state, regulation.regulator, false, symbols);
                let same = term_iff(&on, &off);
                let assertion = term_not(&same);
                query_assert(solver, &assertion);
                assert(term_formula(assertion) == observability_formula(*network, *regulation));
            }
            let ghost middle = hard_constraints(*solver);
            match regulation.monotonicity {
                Some(m) => {
                    // Every state `S` has `update(S[r=0]) <= update(S[r=1])`, or
                    // the other way round.
                    let key = match m {
                        Monotonicity::Activation => "act",
                        Monotonicity::Inhibition => "inh",
                    };
                    let smt_state = regulation_state(key, regulation, network);
                    let on = forced_update(update, &smt_state, regulation.regulator, true, symbols);
                    let off = forced_update(
                        update,
                        &smt_state,
                        regulation.regulator,
                        false,
                        symbols,
                    );
                    let body = match m {
                        Monotonicity::Activation => term_implies(&off, &on),
                        Monotonicity::Inhibition => term_implies(&on, &off),
                    };
                    let mut bounds = smt_state.make_smt_vars();
                    assert(formulas(bounds@).len() == bounds@.len());
                    let _ = bounds.remove(regulation.regulator);
                    proof {
                        assert(formulas(bounds@) =~= smt_state@.remove(
                            regulation.regulator as int,
                        ));
                        assert forall|i: int| 0 <= i < bounds@.len() implies term_formula(
                            #[trigger] bounds@[i],
                        ) is Atom by {
                            assert(term_formula(bounds@[i]) == formulas(bounds@)[i]);
                        }
                    }
                    let assertion = term_forall(&bounds, &body);
                    query_assert(solver, &assertion);
                    assert(term_formula(assertion) == monotonicity_formula(
                        *network,
                        *regulation,
                        m,
                    ));
                },
                None => {},
            }
            assert(hard_constraints(*solver) =~= hard + regulation_formulas(
                *network,
                *regulation,
            ));
        },
        None => {},
    }
}

/// Constraints on the behaviour of a Boolean network that come to a query for
/// the solver: a model of the query gives the uninterpreted functions a
/// meaning with which the network meets the constraints.
pub struct InferenceProblem {
    network: NetworkModel,
    uninterpreted_symbols: Vec<FuncDecl>,
    state_declarations: NameMap<SmtState>,
    state_specification: NameMap<StateSpecification>,
    fixed_points: NameMap<()>,
}

impl InferenceProblem {
    /// The network that the problem is about.
    pub closed spec fn network(&self) -> NetworkModel {
        self.network
    }

    /// The names of the declared states, in their order.
    pub closed spec fn states(&self) -> Seq<(Seq<char>, ())> {
        key_set(self.state_declarations@)
    }

    /// What was observed of each state that something was observed of, in the
    /// order of the states' names.
    pub closed spec fn specifications(&self) -> Seq<(Seq<char>, Seq<Assertion>)> {
        map_entries(self.state_specification@, |s: StateSpecification| s@)
    }

    /// The names of the states that are to be fixed points, in their order.
    pub closed spec fn fixed_points(&self) -> Seq<(Seq<char>, ())> {
        self.fixed_points@
    }

    /// The function symbols of the solver that stand for the uninterpreted
    /// functions of the network, each at the index of its function.
    pub closed spec fn symbols(&self) -> Seq<FuncDecl> {
        self.uninterpreted_symbols@
    }

    /// Whether a state of the given name would share no constant with a
    /// declared state or with an auxiliary state of a regulation of the
    /// network.
    pub open spec fn name_is_free(&self, name: Seq<char>) -> bool {
        name_free(name, self.states(), self.network().regulations(), self.network().variables())
    }

    /// Whether a state of that name is declared.
    pub open spec fn has_state(&self, name: Seq<char>) -> bool {
        has_key(self.states(), name)
    }

    /// A declared state stands under its own name and holds the constants
    /// that the name gives.
    spec fn state_ok(&self, entry: (Seq<char>, SmtState)) -> bool {
        &&& entry.1.name_view() == entry.0
        &&& entry.1.declares(self.network.variables())
        &&& c_safe(entry.0)
    }

    /// An observation is of a declared state, valid, and speaks of components
    /// of the network.
    spec fn spec_ok(&self, entry: (Seq<char>, StateSpecification)) -> bool {
        &&& has_key(self.state_declarations@, entry.0)
        &&& entry.1.wf()
        &&& within(entry.1@, self.network.variables().len())
    }

    /// The network is valid and leaves no update function out; the function
    /// symbols are those of the network; every declared state holds the
    /// constants that its name gives; every observation and every fixed point
    /// is of a declared state, and every observation speaks of components of
    /// the network.
    pub closed spec fn wf(&self) -> bool {
        &&& self.network.wf()
        &&& self.network.implicit_parameters() == 0
        &&& symbols_match(self.uninterpreted_symbols@, self.network)
        &&& self.state_declarations.wf()
        &&& self.state_specification.wf()
        &&& self.fixed_points.wf()
        &&& forall|i: int|
            0 <= i < self.state_declarations@.len() ==> self.state_ok(
                #[trigger] self.state_declarations@[i],
            )
        &&& forall|i: int|
            0 <= i < self.state_specification@.len() ==> self.spec_ok(
                #[trigger] self.state_specification@[i],
            )
        &&& forall|i: int|
            0 <= i < self.fixed_points@.len() ==> has_key(
                self.state_declarations@,
                (#[trigger] self.fixed_points@[i]).0,
            )
        &&& forall|i: int, j: int|
            0 <= i < self.state_declarations@.len() && 0 <= j < self.state_declarations@.len() && (
            #[trigger] self.state_declarations@[i]).0 != (#[trigger] self.state_declarations@[j]).0
                ==> !share_constant(
                self.state_declarations@[i].0,
                self.state_declarations@[j].0,
                self.network.variables(),
            )
        &&& forall|i: int, r: int|
            0 <= i < self.state_declarations@.len() && 0 <= r < self.network.regulations().len()
                ==> !regulation_clash(
                (#[trigger] self.state_declarations@[i]).0,
                #[trigger] self.network.regulations()[r],
                self.network.variables(),
            )
    }

    /// What a valid problem says of its parts.
    pub proof fn lemma_wf(&self)
        requires
            self.wf(),
        ensures
            self.network().wf(),
            self.network().implicit_parameters() == 0,
            symbols_match(self.symbols(), self.network()),
            sorted(self.states()),
            sorted(self.specifications()),
            sorted(self.fixed_points()),
            forall|i: int|
                0 <= i < self.specifications().len() ==> self.has_state(
                    (#[trigger] self.specifications()[i]).0,
                ) && within(self.specifications()[i].1, self.network().variables().len()),
            forall|i: int|
                0 <= i < self.fixed_points().len() ==> self.has_state(
                    (#[trigger] self.fixed_points()[i]).0,
                ),
            forall|i: int, j: int|
                0 <= i < self.states().len() && 0 <= j < self.states().len() && i != j
                    ==> !share_constant(
                    (#[trigger] self.states()[i]).0,
                    (#[trigger] self.states()[j]).0,
                    self.network().variables(),
                ),
            forall|i: int, r: int|
                0 <= i < self.states().len() && 0 <= r < self.network().regulations().len()
                    ==> !regulation_clash(
                    (#[trigger] self.states()[i]).0,
                    #[trigger] self.network().regulations()[r],
                    self.network().variables(),
                ),
    {
        assert forall|i: int, j: int|
            0 <= i < self.states().len() && 0 <= j < self.states().len() && i != j
                implies !share_constant(
            (#[trigger] self.states()[i]).0,
            (#[trigger] self.states()[j]).0,
            self.network().variables(),
        ) by {
            let a = self.state_declarations@[i];
            let b = self.state_declarations@[j];
            crate::text::lemma_name_lt_irreflexive(a.0);
            if i < j {
                assert(crate::text::name_lt(a.0, b.0));
            } else {
                assert(crate::text::name_lt(b.0, a.0));
            }
        }
        assert forall|i: int, r: int|
            0 <= i < self.states().len() && 0 <= r < self.network().regulations().len()
                implies !regulation_clash(
            (#[trigger] self.states()[i]).0,
            #[trigger] self.network().regulations()[r],
            self.network().variables(),
        ) by {
            assert(self.states()[i].0 == self.state_declarations@[i].0);
        }
        lemma_map_entries(self.state_declarations@, |v: SmtState| (), Seq::empty());
        lemma_map_entries(self.state_specification@, |s: StateSpecification| s@, Seq::empty());
        assert forall|i: int| 0 <= i < self.specifications().len() implies self.has_state(
            (#[trigger] self.specifications()[i]).0,
        ) && within(self.specifications()[i].1, self.network().variables().len()) by {
            let entry = self.state_specification@[i];
            assert(self.spec_ok(entry));
            lemma_map_entries(self.state_declarations@, |v: SmtState| (), entry.0);
        }
        assert forall|i: int| 0 <= i < self.fixed_points().len() implies self.has_state(
            (#[trigger] self.fixed_points()[i]).0,
        ) by {
            lemma_map_entries(self.state_declarations@, |v: SmtState| (), self.fixed_points@[i].0);
        }
    }

    /// No two constants of the declared states have one name: the constant
    /// of a component in a state differs from that of every other component
    /// in the state and from every constant of every other state.
    pub proof fn lemma_constants_apart(&self, i: int, j: int, a: int, b: int)
        requires
            self.wf(),
            0 <= i < self.states().len(),
            0 <= j < self.states().len(),
            0 <= a < self.network().variables().len(),
            0 <= b < self.network().variables().len(),
            i != j || a != b,
        ensures
            state_variable_name(self.states()[i].0, self.network().variables()[a])
                != state_variable_name(self.states()[j].0, self.network().variables()[b]),
    {
        self.lemma_wf();
        let variables = self.network().variables();
        if i != j {
            assert(!share_constant(self.states()[i].0, self.states()[j].0, variables));
        } else {
            if a < b {
                assert(variables[a] != variables[b]);
            } else {
                assert(variables[b] != variables[a]);
            }
            lemma_components_share_no_constant(self.states()[i].0, variables[a], variables[b]);
        }
    }

    /// No constant of a declared state has the name of a constant of an
    /// auxiliary state that a regulation brings into the query.
    pub proof fn lemma_auxiliary_apart(&self, i: int, r: int, a: int, b: int)
        requires
            self.wf(),
            0 <= i < self.states().len(),
            0 <= r < self.network().regulations().len(),
            0 <= a < self.network().variables().len(),
            0 <= b < self.network().variables().len(),
        ensures
            self.network().regulations()[r].observable ==> state_variable_name(
                self.states()[i].0,
                self.network().variables()[a],
            ) != state_variable_name(
                regulation_state_name("o"@, self.network().regulations()[r]),
                self.network().variables()[b],
            ),
            self.network().regulations()[r].monotonicity matches Some(m) ==> state_variable_name(
                self.states()[i].0,
                self.network().variables()[a],
            ) != state_variable_name(
                regulation_state_name(monotonicity_prefix(m), self.network().regulations()[r]),
                self.network().variables()[b],
            ),
    {
        self.lemma_wf();
        let variables = self.network().variables();
        let regulation = self.network().regulations()[r];
        assert(!regulation_clash(self.states()[i].0, regulation, variables));
    }

    /// A new problem for a network, with no state declared. The network must
    /// leave no update function out: an open one stands for an unnamed
    /// function, which has to be given a name first.
    pub fn new(network: NetworkModel) -> (problem: InferenceProblem)
        requires
            network.wf(),
            network.implicit_parameters() == 0,
        ensures
            problem.wf(),
            problem.network() == network,
            symbols_match(problem.symbols(), network),
            problem.states() == Seq::<(Seq<char>, ())>::empty(),
            problem.specifications() == Seq::<(Seq<char>, Seq<Assertion>)>::empty(),
            problem.fixed_points() == Seq::<(Seq<char>, ())>::empty(),
    {
        let mut uninterpreted_symbols: Vec<FuncDecl> = Vec::new();
        let mut p: usize = 0;
        while p < network.num_parameters()
            invariant
                p <= network.parameter_names().len(),
                network.wf(),
                uninterpreted_symbols@.len() == p,
                forall|j: int|
                    0 <= j < p ==> {
                        &&& symbol_name(#[trigger] uninterpreted_symbols@[j])
                            == network.parameter_names()[j]
                        &&& symbol_arity(uninterpreted_symbols@[j]) == network.arities()[j]
                        &&& symbol_is_boolean(uninterpreted_symbols@[j])
                    },
            decreases network.parameter_names().len() - p,
        {
            let parameter = network.get_parameter(p);
            assert(c_safe(network.parameter_names()[p as int]));
            assert(network.parameter_names()[p as int].len() > 0);
            assert(network.arities()[p as int] <= u32::MAX);
            uninterpreted_symbols.push(symbol_new(parameter.name.as_str(), parameter.arity));
            p += 1;
        }
        let problem = InferenceProblem {
            network,
            uninterpreted_symbols,
            state_declarations: NameMap::new(),
            state_specification: NameMap::new(),
            fixed_points: NameMap::new(),
        };
        proof {
            assert(symbol_names(problem.uninterpreted_symbols@) =~= network.parameter_names());
            assert(symbol_arities(problem.uninterpreted_symbols@) =~= network.arities());
            assert(problem.states() =~= Seq::<(Seq<char>, ())>::empty());
            assert(problem.specifications() =~= Seq::<(Seq<char>, Seq<Assertion>)>::empty());
        }
        problem
    }

    /// Whether a state of the given name can be declared: the name holds no
    /// character of code zero, no state of that name is declared, and the
    /// state would share no constant with a declared state or with an
    /// auxiliary state of a regulation.
    pub fn can_declare(&self, name: &str) -> (b: bool)
        requires
            self.wf(),
        ensures
            b == (c_safe(name@) && !self.has_state(name@) && self.name_is_free(name@)),
    {
        if !is_c_safe(name) || self.contains_state(name) {
            return false;
        }
        let mut i: usize = 0;
        while i < self.state_declarations.len()
            invariant
                i <= self.state_declarations@.len(),
                self.states().len() == self.state_declarations@.len(),
                forall|k: int|
                    0 <= k < i ==> !share_constant(
                        name@,
                        (#[trigger] self.states()[k]).0,
                        self.network.variables(),
                    ),
            decreases self.state_declarations@.len() - i,
        {
            if constants_coincide(
                name,
                self.state_declarations.key(i).as_str(),
                self.network.variable_names(),
            ) {
                assert(self.states()[i as int].0 == self.state_declarations@[i as int].0);
                return false;
            }
            assert(self.states()[i as int].0 == self.state_declarations@[i as int].0);
            i += 1;
        }
        let mut r: usize = 0;
        while r < self.network.num_regulations()
            invariant
                r <= self.network.regulations().len(),
                forall|k: int|
                    0 <= k < r ==> !regulation_clash(
                        name@,
                        #[trigger] self.network.regulations()[k],
                        self.network.variables(),
                    ),
            decreases self.network.regulations().len() - r,
        {
            let regulation = self.network.get_regulation(r);
            if clashes_with_regulation(name, &regulation, self.network.variable_names()) {
                return false;
            }
            r += 1;
        }
        true
    }

    /// Declares a new state of the given name and hands out a copy of it.
    /// No state of that name may have been declared, the name must hold no
    /// character of code zero, and no constant of the new state may have the
    /// name of a constant of a declared state or of an auxiliary state of a
    /// regulation, so that no two states of the query share a constant.
    pub fn make_state(&mut self, name: &str) -> (state: SmtState)
        requires
            old(self).wf(),
            c_safe(name@),
            !old(self).has_state(name@),
            old(self).name_is_free(name@),
        ensures
            final(self).wf(),
            final(self).network() == old(self).network(),
            final(self).states() == upsert(old(self).states(), name@, ()),
            final(self).has_state(name@),
            forall|other: Seq<char>|
                old(self).has_state(other) ==> #[trigger] final(self).has_state(other),
            final(self).specifications() == old(self).specifications(),
            final(self).fixed_points() == old(self).fixed_points(),
            state.name_view() == name@,
            state.declares(old(self).network().variables()),
            state.wf(),
    {
        let state = SmtState::new(name, &self.network);
        let stored = state.clone();
        proof {
            let before = self.state_declarations@;
            lemma_upsert(before, name@, stored);
            lemma_upsert_entries(before, name@, stored);
            lemma_map_entries_upsert(before, |v: SmtState| (), name@, stored);
            lemma_upsert(old(self).states(), name@, ());
            assert(lookup(upsert(old(self).states(), name@, ()), name@) == Some(()));
            assert forall|other: Seq<char>| has_key(old(self).states(), other) implies has_key(
                upsert(old(self).states(), name@, ()),
                other,
            ) by {
                if other != name@ {
                    assert(lookup(upsert(old(self).states(), name@, ()), other) == lookup(
                        old(self).states(),
                        other,
                    ));
                }
            }
            let after = upsert(before, name@, stored);
            assert forall|i: int, j: int|
                0 <= i < after.len() && 0 <= j < after.len() && (#[trigger] after[i]).0 != (
                #[trigger] after[j]).0 implies !share_constant(
                after[i].0,
                after[j].0,
                self.network.variables(),
            ) by {
                if after[i] != (name@, stored) {
                    let x = choose|x: int| 0 <= x < before.len() && before[x] == after[i];
                    assert(self.states()[x].0 == before[x].0);
                    if after[j] != (name@, stored) {
                        let y = choose|y: int| 0 <= y < before.len() && before[y] == after[j];
                    } else if share_constant(after[i].0, name@, self.network.variables()) {
                        lemma_share_constant_symmetric(
                            after[i].0,
                            name@,
                            self.network.variables(),
                        );
                    }
                } else if after[j] != (name@, stored) {
                    let y = choose|y: int| 0 <= y < before.len() && before[y] == after[j];
                    assert(self.states()[y].0 == before[y].0);
                }
            }
            assert forall|i: int, r: int|
                0 <= i < after.len() && 0 <= r < self.network.regulations().len()
                    implies !regulation_clash(
                (#[trigger] after[i]).0,
                #[trigger] self.network.regulations()[r],
                self.network.variables(),
            ) by {
                if after[i] != (name@, stored) {
                    let x = choose|x: int| 0 <= x < before.len() && before[x] == after[i];
                }
            }
            assert forall|i: int| 0 <= i < after.len() implies self.state_ok(
                #[trigger] after[i],
            ) by {
                if after[i] != (name@, stored) {
                    let j = choose|j: int| 0 <= j < before.len() && before[j] == after[i];
                    assert(self.state_ok(before[j]));
                }
            }
            assert forall|k: Seq<char>| has_key(before, k) implies has_key(after, k) by {
                if k != name@ {
                    assert(lookup(after, k) == lookup(before, k));
                } else {
                    assert(lookup(after, k) == Some(stored));
                }
            }
            assert forall|i: int| 0 <= i < self.state_specification@.len() implies has_key(
                after,
                (#[trigger] self.state_specification@[i]).0,
            ) by {
                assert(self.spec_ok(self.state_specification@[i]));
            }
        }
        self.state_declarations.insert(String::from_str(name), stored);
        state
    }

    /// Whether a state of the given name is declared.
    pub fn contains_state(&self, name: &str) -> (b: bool)
        ensures
            b == self.has_state(name@),
    {
        proof {
            lemma_map_entries(self.state_declarations@, |v: SmtState| (), name@);
        }
        self.state_declarations.contains_key(name)
    }

    /// The declared state of the given name. A state of that name must have
    /// been declared.
    pub fn get_state(&self, name: &str) -> (state: &SmtState)
        requires
            self.wf(),
            self.has_state(name@),
        ensures
            state.name_view() == name@,
            state.declares(self.network().variables()),
            state.wf(),
    {
        proof {
            lemma_map_entries(self.state_declarations@, |v: SmtState| (), name@);
        }
        let position = self.state_declarations.position(name);
        let p = position.unwrap();
        assert(self.state_ok(self.state_declarations@[p as int]));
        self.state_declarations.value(p)
    }

    /// Asserts that the state of the given name is a fixed point of the
    /// network. A state of that name must have been declared.
    pub fn assert_fixed_point(&mut self, name: &str)
        requires
            old(self).wf(),
            old(self).has_state(name@),
        ensures
            final(self).wf(),
            final(self).network() == old(self).network(),
            final(self).states() == old(self).states(),
            final(self).specifications() == old(self).specifications(),
            final(self).fixed_points() == upsert(old(self).fixed_points(), name@, ()),
    {
        proof {
            let before = self.fixed_points@;
            lemma_upsert_entries(before, name@, ());
            lemma_map_entries(self.state_declarations@, |v: SmtState| (), name@);
            let after = upsert(before, name@, ());
            assert forall|i: int| 0 <= i < after.len() implies has_key(
                self.state_declarations@,
                (#[trigger] after[i]).0,
            ) by {
                if after[i] != (name@, ()) {
                    let j = choose|j: int| 0 <= j < before.len() && before[j] == after[i];
                    assert(has_key(self.state_declarations@, before[j].0));
                }
            }
        }
        self.fixed_points.insert(String::from_str(name), ());
    }

    /// Asserts that the state of the given name must follow the given
    /// observation, in place of what was observed of it before. What the
    /// observation holds as "may" need not hold in every model. A state of
    /// that name must have been declared, and the observation must speak of
    /// components of the network only.
    pub fn assert_state_observation(&mut self, name: &str, observation: &StateSpecification)
        requires
            old(self).wf(),
            old(self).has_state(name@),
            observation.wf(),
            within(observation@, old(self).network().variables().len()),
        ensures
            final(self).wf(),
            final(self).network() == old(self).network(),
            final(self).states() == old(self).states(),
            final(self).specifications() == upsert(
                old(self).specifications(),
                name@,
                observation@,
            ),
            final(self).fixed_points() == old(self).fixed_points(),
    {
        let stored = observation.clone();
        proof {
            let before = self.state_specification@;
            lemma_upsert_entries(before, name@, stored);
            lemma_map_entries_upsert(before, |s: StateSpecification| s@, name@, stored);
            lemma_map_entries(self.state_declarations@, |v: SmtState| (), name@);
            let after = upsert(before, name@, stored);
            assert forall|i: int| 0 <= i < after.len() implies self.spec_ok(
                #[trigger] after[i],
            ) by {
                if after[i] != (name@, stored) {
                    let j = choose|j: int| 0 <= j < before.len() && before[j] == after[i];
                    assert(self.spec_ok(before[j]));
                }
            }
        }
        self.state_specification.insert(String::from_str(name), stored);
    }

    /// The query that holds all the constraints of the problem: the
    /// observations, mandatory ones as hard and preferential ones as soft
    /// constraints weighted by their confidence; that every fixed point is
    /// one; and what the regulations demand.
    pub fn build_solver(&self) -> (solver: Optimize)
        requires
            self.wf(),
        ensures
            hard_constraints(solver) == problem_hard(
                self.network(),
                self.specifications(),
                self.fixed_points(),
            ),
            soft_constraints(solver) == problem_soft(self.network(), self.specifications()),
    {
        let mut solver = query_new();
        let ghost variables = self.network.variables();
        let ghost specs = self.specifications();

        // First, that all state specifications are satisfied.
        let mut i: usize = 0;
        proof {
            assert(specs.take(0) =~= Seq::<(Seq<char>, Seq<Assertion>)>::empty());
            assert(hard_constraints(solver) =~= observation_hard(variables, specs.take(0)));
            assert(soft_constraints(solver) =~= observation_soft(variables, specs.take(0)));
        }
        while i < self.state_specification.len()
            invariant
                i <= self.state_specification@.len(),
                self.wf(),
                variables == self.network.variables(),
                specs == self.specifications(),
                specs.len() == self.state_specification@.len(),
                hard_constraints(solver) == observation_hard(variables, specs.take(i as int)),
                soft_constraints(solver) == observation_soft(variables, specs.take(i as int)),
            decreases self.state_specification@.len() - i,
        {
            let name = self.state_specification.key(i);
            let specification = self.state_specification.value(i);
            proof {
                assert(self.spec_ok(self.state_specification@[i as int]));
                lemma_map_entries(self.state_declarations@, |v: SmtState| (), name@);
            }
            let state = self.get_state(name.as_str());
            assert_observation(&mut solver, state, specification);
            proof {
                assert(specs.take(i + 1).drop_last() =~= specs.take(i as int));
                assert(specs.take(i + 1).last() == (name@, specification@));
            }
            i += 1;
        }
        assert(specs.take(i as int) =~= specs);

        // Second, that every state that should be a fixed point is one.
        let ghost first = hard_constraints(solver);
        let ghost fixed = self.fixed_points@;
        let mut j: usize = 0;
        proof {
            assert(fixed.take(0) =~= Seq::<(Seq<char>, ())>::empty());
            assert(first + fixed_point_hard(self.network, fixed.take(0)) =~= first);
        }
        while j < self.fixed_points.len()
            invariant
                j <= self.fixed_points@.len(),
                self.wf(),
                fixed == self.fixed_points@,
                hard_constraints(solver) == first + fixed_point_hard(
                    self.network,
                    fixed.take(j as int),
                ),
                soft_constraints(solver) == observation_soft(variables, specs),
            decreases self.fixed_points@.len() - j,
        {
            let name = self.fixed_points.key(j);
            proof {
                lemma_map_entries(self.state_declarations@, |v: SmtState| (), name@);
            }
            let state = self.get_state(name.as_str());
            assert_state_fixed(&mut solver, state, &self.network, &self.uninterpreted_symbols);
            proof {
                assert(fixed.take(j + 1).drop_last() =~= fixed.take(j as int));
                assert(fixed.take(j + 1).last().0 == name@);
                assert(first + fixed_point_hard(self.network, fixed.take(j + 1)) =~= first
                    + fixed_point_hard(self.network, fixed.take(j as int)) + fixed_point_formulas(
                    state@,
                    self.network.update_functions(),
                    self.network.parameter_names(),
                ));
            }
            j += 1;
        }
        assert(fixed.take(j as int) =~= fixed);

        // Finally, that the regulations have their properties.
        let ghost second = hard_constraints(solver);
        let ghost regulations = self.network.regulations();
        let mut r: usize = 0;
        proof {
            assert(regulations.take(0) =~= Seq::<Regulation>::empty());
            assert(second + structural_hard(self.network, regulations.take(0)) =~= second);
        }
        while r < self.network.num_regulations()
            invariant
                r <= regulations.len(),
                self.wf(),
                regulations == self.network.regulations(),
                hard_constraints(solver) == second + structural_hard(
                    self.network,
                    regulations.take(r as int),
                ),
                soft_constraints(solver) == observation_soft(variables, specs),
            decreases regulations.len() - r,
        {
            let regulation = self.network.get_regulation(r);
            assert_regulation(
                &mut solver,
                &self.network,
                &self.uninterpreted_symbols,
                &regulation,
            );
            proof {
                assert(regulations.take(r + 1).drop_last() =~= regulations.take(r as int));
                assert(regulations.take(r + 1).last() == regulation);
                assert(second + structural_hard(self.network, regulations.take(r + 1)) =~= second
                    + structural_hard(self.network, regulations.take(r as int))
                    + regulation_formulas(self.network, regulation));
            }
            r += 1;
        }
        assert(regulations.take(r as int) =~= regulations);
        solver
    }

    /// The meaning that a model gives to an uninterpreted function of the
    /// network, as a truth table: row `k` holds the value at the arguments
    /// that are the binary digits of `k`, the first argument being the lowest
    /// digit. The table has two to the power of the arity rows, so this is for
    /// functions of few arguments. Nothing comes back where the table does
    /// not fit in memory or the solver cannot evaluate a row.
    pub fn extract_truth_table(&self, model: &Model, parameter: usize) -> (r: Option<Vec<bool>>)
        requires
            self.wf(),
            parameter < self.network().parameter_names().len(),
        ensures
            r is Some <==> table_size(self.network().arities()[parameter as int])
                <= usize::MAX && table_defined(
                *model,
                self.network().parameter_names()[parameter as int],
                self.network().arities()[parameter as int],
            ),
            r matches Some(table) ==> table@ == truth_table(
                *model,
                self.network().parameter_names()[parameter as int],
                self.network().arities()[parameter as int],
            ),
    {
        let arity = self.network.get_parameter(parameter).arity;
        assert(symbol_names(self.uninterpreted_symbols@)[parameter as int] == symbol_name(
            self.uninterpreted_symbols@[parameter as int],
        ));
        assert(symbol_arities(self.uninterpreted_symbols@)[parameter as int] == symbol_arity(
            self.uninterpreted_symbols@[parameter as int],
        ));
        function_table(model, &self.uninterpreted_symbols[parameter], arity)
    }

    /// The meaning that a model gives to an uninterpreted function of the
    /// network, as a decision diagram over anonymous variables `x_0`, `x_1`
    /// and so on, one for each argument: the function is evaluated at every
    /// combination of arguments, and the diagram is true on exactly those at
    /// which the function is. This takes two to the power of the arity
    /// evaluations, so it is for functions of few arguments. Nothing comes
    /// back where there is no truth table, or for 65534 arguments or more.
    pub fn extract_uninterpreted_symbol(&self, model: &Model, parameter: usize) -> (r: Option<
        (BddVariableSet, Bdd),
    >)
        requires
            self.wf(),
            parameter < self.network().parameter_names().len(),
        ensures
            r is Some <==> self.network().arities()[parameter as int] < 65534 && table_size(
                self.network().arities()[parameter as int],
            ) <= usize::MAX && table_defined(
                *model,
                self.network().parameter_names()[parameter as int],
                self.network().arities()[parameter as int],
            ),
            r matches Some(pair) ==> bdd_variable_count(pair.0)
                == self.network().arities()[parameter as int] && bdd_models(pair.1) == true_rows(
                self.network().arities()[parameter as int],
                truth_table(
                    *model,
                    self.network().parameter_names()[parameter as int],
                    self.network().arities()[parameter as int],
                ),
            ),
    {
        let arity = self.network.get_parameter(parameter).arity;
        if arity >= 65534 {
            return None;
        }
        match self.extract_truth_table(model, parameter) {
            Some(table) => table_diagram(arity, &table),
            None => None,
        }
    }
}

} // verus!
