//! The naive inference: with all fixed points of the network at hand, find
//! the fewest observed values that have to be given up for the rest to be
//! met by fixed points of one and the same color.

use crate::combinations::{
    combination_views, combinations, is_combination, lemma_combinations_complete,
    lemma_combinations_distinct, lemma_combinations_members, position_combinations,
};
use crate::engine_limits::{engine_takes_network, network_fits, unfit_network_message};
use crate::inference_problem::within;
use crate::name_map::{map_entries, sorted, str_equal, NameMap};
use crate::observations::{
    dataset_specifications, lemma_assertions_ok, lemma_specifications_ok, observation_assertions,
    Dataset, Observation,
};
use crate::state_specification::{optional_part, Assertion, StateSpecification};
use crate::symbolic::{
    agrees, color_set, colored_in, colored_set, colors_empty, colors_in, colors_of,
    graph_fixed_points, graph_unit, graph_variables, intersect_colors, intersect_vertices,
    network_variable_names, network_variables, subspace, symbolic_fixed_points, symbolic_graph,
    symbolic_graph_of, unit_colored_vertices, vertex_set, vertices_of,
};
use crate::text::{name_lt, names};
use biodivine_lib_param_bn::symbolic_async_graph::{
    GraphColoredVertices, GraphColors, SymbolicAsyncGraph,
};
use biodivine_lib_param_bn::BooleanNetwork;
use vstd::prelude::*;

verus! {

/// A list of pairs of names as a mathematical value.
pub open spec fn pair_views(pairs: Seq<(String, String)>) -> Seq<(Seq<char>, Seq<char>)> {
    Seq::new(pairs.len(), |i: int| (pairs[i].0@, pairs[i].1@))
}

/// The values of an observation that are not to be ignored: those whose
/// variable, with the name of the observation, is not in `ignore`.
pub open spec fn kept(
    values: Seq<(Seq<char>, bool)>,
    observation: Seq<char>,
    ignore: Seq<(Seq<char>, Seq<char>)>,
) -> Seq<(Seq<char>, bool)>
    decreases values.len(),
{
    if values.len() == 0 {
        Seq::empty()
    } else if ignore.contains((observation, values.last().0)) {
        kept(values.drop_last(), observation, ignore)
    } else {
        kept(values.drop_last(), observation, ignore).push(values.last())
    }
}

/// The observations without the values that are to be ignored.
pub open spec fn loosened(
    entries: Seq<(Seq<char>, Seq<(Seq<char>, bool)>)>,
    ignore: Seq<(Seq<char>, Seq<char>)>,
) -> Seq<(Seq<char>, Seq<(Seq<char>, bool)>)> {
    Seq::new(entries.len(), |i: int| (entries[i].0, kept(entries[i].1, entries[i].0, ignore)))
}

/// The values of one observation, each as the pair of the observation's name
/// and the variable's.
pub open spec fn value_names(observation: Seq<char>, values: Seq<(Seq<char>, bool)>) -> Seq<
    (Seq<char>, Seq<char>),
> {
    Seq::new(values.len(), |j: int| (observation, values[j].0))
}

/// All observed values of a dataset in one list, each as the pair of the
/// observation's name and the variable's: observation after observation, and
/// within an observation variable after variable.
pub open spec fn flat_entries(entries: Seq<(Seq<char>, Seq<(Seq<char>, bool)>)>) -> Seq<
    (Seq<char>, Seq<char>),
>
    decreases entries.len(),
{
    if entries.len() == 0 {
        Seq::empty()
    } else {
        flat_entries(entries.drop_last()) + value_names(entries.last().0, entries.last().1)
    }
}

/// The entries of `flat` at the positions that `combination` picks.
pub open spec fn selection(flat: Seq<(Seq<char>, Seq<char>)>, combination: Seq<usize>) -> Seq<
    (Seq<char>, Seq<char>),
> {
    Seq::new(combination.len(), |i: int| flat[combination[i] as int])
}

/// Whether the pair of names is in the list.
fn is_ignored(ignore: &[(String, String)], observation: &str, variable: &str) -> (b: bool)
    ensures
        b == pair_views(ignore@).contains((observation@, variable@)),
{
    let mut i: usize = 0;
    while i < ignore.len()
        invariant
            i <= ignore@.len(),
            forall|j: int| 0 <= j < i ==> pair_views(ignore@)[j] != (observation@, variable@),
        decreases ignore@.len() - i,
    {
        if str_equal(ignore[i].0.as_str(), observation) && str_equal(
            ignore[i].1.as_str(),
            variable,
        ) {
            assert(pair_views(ignore@)[i as int] == (observation@, variable@));
            return true;
        }
        i += 1;
    }
    false
}

/// The dataset without the values that are to be ignored: each is named by
/// its observation and its variable. A pair that names no value of the
/// dataset changes nothing.
pub fn loosen_specification(full_specification: &Dataset, ignore_indices: &[(String, String)]) -> (r:
    Dataset)
    requires
        full_specification.wf(),
    ensures
        r.wf(),
        r.variable_names() == full_specification.variable_names(),
        r.entries() == loosened(full_specification.entries(), pair_views(ignore_indices@)),
{
    let ghost ignore = pair_views(ignore_indices@);
    let ghost entries = full_specification.entries();
    let mut variables: Vec<String> = Vec::new();
    let mut v: usize = 0;
    while v < full_specification.variables.len()
        invariant
            v <= full_specification.variables@.len(),
            variables@.len() == v,
            forall|j: int| 0 <= j < v ==> (#[trigger] variables@[j])@ == full_specification.variables@[j]@,
        decreases full_specification.variables@.len() - v,
    {
        variables.push(full_specification.variables[v].clone());
        v += 1;
    }
    assert(names(variables@) =~= names(full_specification.variables@));

    let mut observations: NameMap<Observation> = NameMap::new();
    let mut i: usize = 0;
    while i < full_specification.observations.len()
        invariant
            i <= full_specification.observations@.len(),
            full_specification.wf(),
            ignore == pair_views(ignore_indices@),
            entries == full_specification.entries(),
            entries.len() == full_specification.observations@.len(),
            observations.wf(),
            observations@.len() == i,
            forall|k: int|
                0 <= k < i ==> (#[trigger] observations@[k]).0 == entries[k].0 && observations@[k].1.wf()
                    && observations@[k].1.value_map@ == kept(entries[k].1, entries[k].0, ignore),
        decreases full_specification.observations@.len() - i,
    {
        let obs_id = full_specification.observations.key(i);
        let observation = full_specification.observations.value(i);
        let ghost values = observation.value_map@;
        assert(entries[i as int] == (obs_id@, values));
        assert(full_specification.observations@[i as int].1.wf());
        let mut value_map: NameMap<bool> = NameMap::new();
        let mut j: usize = 0;
        assert(values.take(0) =~= Seq::<(Seq<char>, bool)>::empty());
        while j < observation.value_map.len()
            invariant
                j <= values.len(),
                values == observation.value_map@,
                sorted(values),
                ignore == pair_views(ignore_indices@),
                value_map.wf(),
                value_map@ == kept(values.take(j as int), obs_id@, ignore),
                forall|x: int, y: int|
                    0 <= x < value_map@.len() && j <= y < values.len() ==> name_lt(
                        #[trigger] value_map@[x].0,
                        #[trigger] values[y].0,
                    ),
            decreases values.len() - j,
        {
            let var_name = observation.value_map.key(j);
            let value = *observation.value_map.value(j);
            proof {
                assert(values.take(j + 1).drop_last() =~= values.take(j as int));
                assert(values.take(j + 1).last() == values[j as int]);
            }
            if !is_ignored(ignore_indices, obs_id.as_str(), var_name.as_str()) {
                let ghost before = value_map@;
                value_map.push_last(var_name.clone(), value);
                proof {
                    assert forall|x: int, y: int|
                        0 <= x < value_map@.len() && j + 1 <= y < values.len() implies name_lt(
                        #[trigger] value_map@[x].0,
                        #[trigger] values[y].0,
                    ) by {
                        if x < before.len() {
                            assert(value_map@[x] == before[x]);
                        } else {
                            assert(name_lt(values[j as int].0, values[y].0));
                        }
                    }
                }
            }
            j += 1;
        }
        assert(values.take(j as int) =~= values);
        proof {
            assert forall|k: int| 0 <= k < observations@.len() implies name_lt(
                #[trigger] observations@[k].0,
                obs_id@,
            ) by {
                assert(observations@[k].0 == entries[k].0);
                assert(full_specification.observations@[k].0 == entries[k].0);
                assert(name_lt(
                    full_specification.observations@[k].0,
                    full_specification.observations@[i as int].0,
                ));
            }
        }
        let ghost before = observations@;
        observations.push_last(obs_id.clone(), Observation::from_value_map(value_map));
        proof {
            assert forall|k: int| 0 <= k < i + 1 implies (#[trigger] observations@[k]).0
                == entries[k].0 && observations@[k].1.wf() && observations@[k].1.value_map@ == kept(
                entries[k].1,
                entries[k].0,
                ignore,
            ) by {
                if k < i {
                    assert(observations@[k] == before[k]);
                }
            }
        }
        i += 1;
    }
    let r = Dataset { observations, variables };
    assert(r.entries() =~= loosened(entries, ignore));
    r
}

/// All observed values of a dataset in one list, each as the pair of the
/// observation's name and the variable's.
pub fn specification_entries(dataset: &Dataset) -> (indices: Vec<(String, String)>)
    ensures
        pair_views(indices@) == flat_entries(dataset.entries()),
{
    let ghost entries = dataset.entries();
    let mut indices: Vec<(String, String)> = Vec::new();
    let mut i: usize = 0;
    assert(entries.take(0) =~= Seq::<(Seq<char>, Seq<(Seq<char>, bool)>)>::empty());
    assert(pair_views(indices@) =~= flat_entries(entries.take(0)));
    while i < dataset.observations.len()
        invariant
            i <= dataset.observations@.len(),
            entries == dataset.entries(),
            entries.len() == dataset.observations@.len(),
            pair_views(indices@) == flat_entries(entries.take(i as int)),
        decreases dataset.observations@.len() - i,
    {
        let obs_id = dataset.observations.key(i);
        let observation = dataset.observations.value(i);
        let ghost values = observation.value_map@;
        let ghost before = pair_views(indices@);
        assert(entries[i as int] == (obs_id@, values));
        let mut j: usize = 0;
        assert(before + value_names(obs_id@, values).take(0) =~= before);
        while j < observation.value_map.len()
            invariant
                j <= values.len(),
                values == observation.value_map@,
                pair_views(indices@) == before + value_names(obs_id@, values).take(j as int),
            decreases values.len() - j,
        {
            let var_name = observation.value_map.key(j);
            let ghost old_pairs = pair_views(indices@);
            indices.push((obs_id.clone(), var_name.clone()));
            proof {
                let all = value_names(obs_id@, values);
                assert(pair_views(indices@) =~= old_pairs.push((obs_id@, var_name@)));
                assert(all.take(j + 1) =~= all.take(j as int).push(all[j as int]));
                assert(all[j as int] == (obs_id@, var_name@));
                assert(pair_views(indices@) =~= before + all.take(j + 1));
            }
            j += 1;
        }
        proof {
            assert(value_names(obs_id@, values).take(j as int) =~= value_names(obs_id@, values));
            assert(entries.take(i + 1).drop_last() =~= entries.take(i as int));
            assert(entries.take(i + 1).last() == entries[i as int]);
        }
        i += 1;
    }
    assert(entries.take(i as int) =~= entries);
    indices
}

/// The entries at the positions that a combination picks.
fn select_entries(indices: &Vec<(String, String)>, combination: &Vec<usize>) -> (r: Vec<
    (String, String),
>)
    requires
        forall|i: int| 0 <= i < combination@.len() ==> #[trigger] combination@[i] < indices@.len(),
    ensures
        pair_views(r@) == selection(pair_views(indices@), combination@),
{
    let mut r: Vec<(String, String)> = Vec::new();
    let mut i: usize = 0;
    while i < combination.len()
        invariant
            i <= combination@.len(),
            r@.len() == i,
            forall|k: int|
                0 <= k < combination@.len() ==> #[trigger] combination@[k] < indices@.len(),
            forall|k: int|
                0 <= k < i ==> (#[trigger] r@[k]).0@ == indices@[combination@[k] as int].0@
                    && r@[k].1@ == indices@[combination@[k] as int].1@,
        decreases combination@.len() - i,
    {
        let entry = &indices[combination[i]];
        r.push((entry.0.clone(), entry.1.clone()));
        i += 1;
    }
    assert(pair_views(r@) =~= selection(pair_views(indices@), combination@));
    r
}

/// The values that a specification fixes: component and value of each of its
/// "may" assertions.
pub open spec fn subspace_values(assertions: Seq<Assertion>) -> Seq<(usize, bool)> {
    Seq::new(
        optional_part(assertions).len(),
        |i: int| (optional_part(assertions)[i].0, optional_part(assertions)[i].1.0),
    )
}

/// The colors under which some fixed point has the given values.
pub open spec fn matching(fixed: Set<(Seq<bool>, Seq<bool>)>, values: Seq<(usize, bool)>) -> Set<
    Seq<bool>,
> {
    Set::new(|c: Seq<bool>| exists|s: Seq<bool>| fixed.contains((s, c)) && agrees(s, values))
}

/// The colors under which there is a fixed point at all.
pub open spec fn all_colors(fixed: Set<(Seq<bool>, Seq<bool>)>) -> Set<Seq<bool>> {
    Set::new(|c: Seq<bool>| exists|s: Seq<bool>| fixed.contains((s, c)))
}

/// The colors under which each of the first `n` specifications is met by some
/// fixed point.
pub open spec fn consistent_upto(
    fixed: Set<(Seq<bool>, Seq<bool>)>,
    specs: Seq<(Seq<char>, Seq<Assertion>)>,
    n: int,
) -> Set<Seq<bool>> {
    Set::new(
        |c: Seq<bool>|
            all_colors(fixed).contains(c) && forall|i: int|
                0 <= i < n ==> #[trigger] matching(fixed, subspace_values(specs[i].1)).contains(c),
    )
}

/// The colors under which every specification is met by some fixed point.
pub open spec fn consistent_colors(
    fixed: Set<(Seq<bool>, Seq<bool>)>,
    specs: Seq<(Seq<char>, Seq<Assertion>)>,
) -> Set<Seq<bool>> {
    consistent_upto(fixed, specs, specs.len() as int)
}

/// Whether a set of colors holds a color.
pub open spec fn nonempty(colors: Set<Seq<bool>>) -> bool {
    exists|c: Seq<bool>| colors.contains(c)
}

/// The colors under which the dataset, without the values that the
/// combination picks, is met by fixed points; or what is said of a variable
/// that is not among `variables`.
pub open spec fn combination_colors(
    fixed: Set<(Seq<bool>, Seq<bool>)>,
    variables: Seq<Seq<char>>,
    entries: Seq<(Seq<char>, Seq<(Seq<char>, bool)>)>,
    combination: Seq<usize>,
) -> Result<Set<Seq<bool>>, Seq<char>> {
    match dataset_specifications(
        variables,
        loosened(entries, selection(flat_entries(entries), combination)),
    ) {
        Err(message) => Err(message),
        Ok(specs) => Ok(consistent_colors(fixed, specs)),
    }
}

/// Those of the combinations that leave a dataset which some color meets,
/// each as the values that it gives up and with the colors that meet the
/// rest; or what is said against the first combination that something is
/// said against.
pub open spec fn successes(
    fixed: Set<(Seq<bool>, Seq<bool>)>,
    variables: Seq<Seq<char>>,
    entries: Seq<(Seq<char>, Seq<(Seq<char>, bool)>)>,
    tried: Seq<Seq<usize>>,
) -> Result<Seq<(Seq<(Seq<char>, Seq<char>)>, Set<Seq<bool>>)>, Seq<char>>
    decreases tried.len(),
{
    if tried.len() == 0 {
        Ok(Seq::empty())
    } else {
        match successes(fixed, variables, entries, tried.drop_last()) {
            Err(message) => Err(message),
            Ok(found) => match combination_colors(fixed, variables, entries, tried.last()) {
                Err(message) => Err(message),
                Ok(colors) => if nonempty(colors) {
                    Ok(found.push((selection(flat_entries(entries), tried.last()), colors)))
                } else {
                    Ok(found)
                },
            },
        }
    }
}

/// The outcome of the search from `k` values given up onwards: all successes
/// of the least number of values, from `k` on, that has one; none if no
/// number has.
pub open spec fn search_from(
    fixed: Set<(Seq<bool>, Seq<bool>)>,
    variables: Seq<Seq<char>>,
    entries: Seq<(Seq<char>, Seq<(Seq<char>, bool)>)>,
    k: nat,
) -> Result<Seq<(Seq<(Seq<char>, Seq<char>)>, Set<Seq<bool>>)>, Seq<char>>
    decreases flat_entries(entries).len() + 1 - k,
{
    let n = flat_entries(entries).len();
    if k > n {
        Ok(Seq::empty())
    } else {
        match successes(fixed, variables, entries, combinations(n, k)) {
            Err(message) => Err(message),
            Ok(found) => if found.len() > 0 {
                Ok(found)
            } else {
                search_from(fixed, variables, entries, k + 1)
            },
        }
    }
}

/// What a list of solutions holds: for each the values given up and the
/// colors that meet the rest.
pub open spec fn solution_views(solutions: Seq<(Vec<(String, String)>, GraphColors)>) -> Seq<
    (Seq<(Seq<char>, Seq<char>)>, Set<Seq<bool>>),
> {
    Seq::new(solutions.len(), |i: int| (pair_views(solutions[i].0@), color_set(solutions[i].1)))
}

/// Whether `r` holds the expected solutions, or the expected message.
pub open spec fn is_search_outcome(
    r: Result<Vec<(Vec<(String, String)>, GraphColors)>, String>,
    expected: Result<Seq<(Seq<(Seq<char>, Seq<char>)>, Set<Seq<bool>>)>, Seq<char>>,
) -> bool {
    match expected {
        Err(message) => r is Err && r->Err_0@ == message,
        Ok(found) => r is Ok && solution_views(r->Ok_0@) == found,
    }
}

/// Once something is said against a combination, it stays the outcome for
/// every longer list of combinations.
proof fn lemma_successes_error(
    fixed: Set<(Seq<bool>, Seq<bool>)>,
    variables: Seq<Seq<char>>,
    entries: Seq<(Seq<char>, Seq<(Seq<char>, bool)>)>,
    tried: Seq<Seq<usize>>,
    failed: int,
)
    requires
        0 <= failed <= tried.len(),
        successes(fixed, variables, entries, tried.take(failed)) is Err,
    ensures
        successes(fixed, variables, entries, tried) == successes(
            fixed,
            variables,
            entries,
            tried.take(failed),
        ),
    decreases tried.len(),
{
    if failed < tried.len() {
        assert(tried.drop_last().take(failed) =~= tried.take(failed));
        lemma_successes_error(fixed, variables, entries, tried.drop_last(), failed);
    } else {
        assert(tried.take(failed) =~= tried);
    }
}

/// Every value that is kept is a value of the observation.
pub proof fn lemma_kept_members(
    values: Seq<(Seq<char>, bool)>,
    observation: Seq<char>,
    ignore: Seq<(Seq<char>, Seq<char>)>,
)
    ensures
        forall|x: int|
            0 <= x < kept(values, observation, ignore).len() ==> values.contains(
                #[trigger] kept(values, observation, ignore)[x],
            ),
    decreases values.len(),
{
    if values.len() > 0 {
        let prev = values.drop_last();
        lemma_kept_members(prev, observation, ignore);
        let k = kept(values, observation, ignore);
        assert forall|x: int| 0 <= x < k.len() implies values.contains(#[trigger] k[x]) by {
            if x < kept(prev, observation, ignore).len() {
                let y = choose|y: int|
                    0 <= y < prev.len() && prev[y] == kept(prev, observation, ignore)[x];
                assert(values[y] == k[x]);
            } else {
                assert(values[values.len() - 1] == k[x]);
            }
        }
    }
}

/// A dataset whose variables are all among `variables` stays so when values
/// are ignored.
pub proof fn lemma_loosened_ok(
    variables: Seq<Seq<char>>,
    entries: Seq<(Seq<char>, Seq<(Seq<char>, bool)>)>,
    ignore: Seq<(Seq<char>, Seq<char>)>,
)
    requires
        dataset_specifications(variables, entries) is Ok,
    ensures
        dataset_specifications(variables, loosened(entries, ignore)) is Ok,
{
    let loose = loosened(entries, ignore);
    lemma_specifications_ok(variables, entries);
    lemma_specifications_ok(variables, loose);
    assert forall|i: int| 0 <= i < loose.len() implies observation_assertions(
        variables,
        (#[trigger] loose[i]).1,
    ) is Ok by {
        let values = entries[i].1;
        let rest = kept(values, entries[i].0, ignore);
        assert(loose[i].1 == rest);
        lemma_assertions_ok(variables, values);
        lemma_assertions_ok(variables, rest);
        lemma_kept_members(values, entries[i].0, ignore);
        assert forall|x: int| 0 <= x < rest.len() implies crate::text::position_of(
            variables,
            (#[trigger] rest[x]).0,
        ) is Some by {
            let y = choose|y: int| 0 <= y < values.len() && values[y] == rest[x];
            assert(crate::text::position_of(variables, values[y].0) is Some);
        }
    }
}

/// Whether giving up the values that the combination picks leaves a dataset
/// that some color meets.
pub open spec fn feasible(
    fixed: Set<(Seq<bool>, Seq<bool>)>,
    variables: Seq<Seq<char>>,
    entries: Seq<(Seq<char>, Seq<(Seq<char>, bool)>)>,
    combination: Seq<usize>,
) -> bool {
    combination_colors(fixed, variables, entries, combination) matches Ok(colors) && nonempty(
        colors,
    )
}

/// An increasing list of positions below `n` has at most `n` positions.
pub proof fn lemma_combination_len(c: Seq<usize>, n: nat)
    requires
        is_combination(c, 0, n),
    ensures
        c.len() <= n,
{
    lemma_combination_grows(c, c.len() as int);
    if c.len() > 0 {
        assert(c[c.len() - 1] >= c.len() - 1);
    }
}

/// The position at an index of an increasing list is at least the index.
proof fn lemma_combination_grows(c: Seq<usize>, upto: int)
    requires
        forall|i: int, j: int| 0 <= i < j < c.len() ==> c[i] < c[j],
        0 <= upto <= c.len(),
    ensures
        forall|i: int| 0 <= i < upto ==> #[trigger] c[i] >= i,
    decreases upto,
{
    if upto > 0 {
        lemma_combination_grows(c, upto - 1);
        if upto > 1 {
            assert(c[upto - 2] < c[upto - 1]);
        }
    }
}

/// Where no combination of a list succeeds, the list has no success.
proof fn lemma_successes_none(
    fixed: Set<(Seq<bool>, Seq<bool>)>,
    variables: Seq<Seq<char>>,
    entries: Seq<(Seq<char>, Seq<(Seq<char>, bool)>)>,
    tried: Seq<Seq<usize>>,
)
    requires
        forall|i: int|
            0 <= i < tried.len() ==> combination_colors(
                fixed,
                variables,
                entries,
                #[trigger] tried[i],
            ) is Ok && !feasible(fixed, variables, entries, tried[i]),
    ensures
        successes(fixed, variables, entries, tried) == Ok::<
            Seq<(Seq<(Seq<char>, Seq<char>)>, Set<Seq<bool>>)>,
            Seq<char>,
        >(Seq::empty()),
    decreases tried.len(),
{
    if tried.len() > 0 {
        let prev = tried.drop_last();
        assert forall|i: int| 0 <= i < prev.len() implies combination_colors(
            fixed,
            variables,
            entries,
            #[trigger] prev[i],
        ) is Ok && !feasible(fixed, variables, entries, prev[i]) by {
            assert(prev[i] == tried[i]);
        }
        lemma_successes_none(fixed, variables, entries, prev);
        assert(tried.last() == tried[tried.len() - 1]);
    }
}

/// Where exactly one combination of a list succeeds, it is the one success of
/// the list.
proof fn lemma_successes_one(
    fixed: Set<(Seq<bool>, Seq<bool>)>,
    variables: Seq<Seq<char>>,
    entries: Seq<(Seq<char>, Seq<(Seq<char>, bool)>)>,
    tried: Seq<Seq<usize>>,
    at: int,
)
    requires
        0 <= at < tried.len(),
        feasible(fixed, variables, entries, tried[at]),
        forall|i: int|
            0 <= i < tried.len() && i != at ==> combination_colors(
                fixed,
                variables,
                entries,
                #[trigger] tried[i],
            ) is Ok && !feasible(fixed, variables, entries, tried[i]),
    ensures
        successes(fixed, variables, entries, tried) == Ok::<
            Seq<(Seq<(Seq<char>, Seq<char>)>, Set<Seq<bool>>)>,
            Seq<char>,
        >(
            seq![
                (
                    selection(flat_entries(entries), tried[at]),
                    combination_colors(fixed, variables, entries, tried[at])->Ok_0,
                ),
            ],
        ),
    decreases tried.len(),
{
    let prev = tried.drop_last();
    assert(tried.last() == tried[tried.len() - 1]);
    if at == tried.len() - 1 {
        assert forall|i: int| 0 <= i < prev.len() implies combination_colors(
            fixed,
            variables,
            entries,
            #[trigger] prev[i],
        ) is Ok && !feasible(fixed, variables, entries, prev[i]) by {
            assert(prev[i] == tried[i]);
        }
        lemma_successes_none(fixed, variables, entries, prev);
        assert(Seq::<(Seq<(Seq<char>, Seq<char>)>, Set<Seq<bool>>)>::empty().push(
            (
                selection(flat_entries(entries), tried[at]),
                combination_colors(fixed, variables, entries, tried[at])->Ok_0,
            ),
        ) =~= seq![
            (
                selection(flat_entries(entries), tried[at]),
                combination_colors(fixed, variables, entries, tried[at])->Ok_0,
            ),
        ]);
    } else {
        assert(prev[at] == tried[at]);
        assert forall|i: int| 0 <= i < prev.len() && i != at implies combination_colors(
            fixed,
            variables,
            entries,
            #[trigger] prev[i],
        ) is Ok && !feasible(fixed, variables, entries, prev[i]) by {
            assert(prev[i] == tried[i]);
        }
        lemma_successes_one(fixed, variables, entries, prev, at);
    }
}

/// The search finds the one least relaxation: where giving up the values
/// that `chosen` picks leaves a dataset that some color meets, and no other
/// way to give up as many values or fewer does, the search hands out
/// exactly that combination, with the colors that meet the rest. The
/// variables of the dataset must all be among `variables`.
pub proof fn lemma_search_unique_minimum(
    fixed: Set<(Seq<bool>, Seq<bool>)>,
    variables: Seq<Seq<char>>,
    entries: Seq<(Seq<char>, Seq<(Seq<char>, bool)>)>,
    chosen: Seq<usize>,
)
    requires
        flat_entries(entries).len() <= usize::MAX,
        dataset_specifications(variables, entries) is Ok,
        is_combination(chosen, 0, flat_entries(entries).len()),
        feasible(fixed, variables, entries, chosen),
        forall|other: Seq<usize>|
            is_combination(other, 0, flat_entries(entries).len()) && other.len() <= chosen.len()
                && #[trigger] feasible(fixed, variables, entries, other) ==> other == chosen,
    ensures
        search_from(fixed, variables, entries, 0) == Ok::<
            Seq<(Seq<(Seq<char>, Seq<char>)>, Set<Seq<bool>>)>,
            Seq<char>,
        >(
            seq![
                (
                    selection(flat_entries(entries), chosen),
                    combination_colors(fixed, variables, entries, chosen)->Ok_0,
                ),
            ],
        ),
{
    lemma_search_reaches(fixed, variables, entries, chosen, 0);
}

/// The search from any number of values up to that of `chosen` comes to
/// `chosen` alone.
proof fn lemma_search_reaches(
    fixed: Set<(Seq<bool>, Seq<bool>)>,
    variables: Seq<Seq<char>>,
    entries: Seq<(Seq<char>, Seq<(Seq<char>, bool)>)>,
    chosen: Seq<usize>,
    k: nat,
)
    requires
        flat_entries(entries).len() <= usize::MAX,
        dataset_specifications(variables, entries) is Ok,
        is_combination(chosen, 0, flat_entries(entries).len()),
        feasible(fixed, variables, entries, chosen),
        forall|other: Seq<usize>|
            is_combination(other, 0, flat_entries(entries).len()) && other.len() <= chosen.len()
                && #[trigger] feasible(fixed, variables, entries, other) ==> other == chosen,
        k <= chosen.len(),
    ensures
        search_from(fixed, variables, entries, k) == Ok::<
            Seq<(Seq<(Seq<char>, Seq<char>)>, Set<Seq<bool>>)>,
            Seq<char>,
        >(
            seq![
                (
                    selection(flat_entries(entries), chosen),
                    combination_colors(fixed, variables, entries, chosen)->Ok_0,
                ),
            ],
        ),
    decreases chosen.len() - k,
{
    let n = flat_entries(entries).len();
    let tried = combinations(n, k);
    lemma_combination_len(chosen, n);
    lemma_combinations_members(0, n, k);
    assert forall|i: int| 0 <= i < tried.len() implies combination_colors(
        fixed,
        variables,
        entries,
        #[trigger] tried[i],
    ) is Ok by {
        lemma_loosened_ok(variables, entries, selection(flat_entries(entries), tried[i]));
    }
    if k < chosen.len() {
        assert forall|i: int| 0 <= i < tried.len() implies combination_colors(
            fixed,
            variables,
            entries,
            #[trigger] tried[i],
        ) is Ok && !feasible(fixed, variables, entries, tried[i]) by {
            assert(tried[i].len() == k);
        }
        lemma_successes_none(fixed, variables, entries, tried);
        lemma_search_reaches(fixed, variables, entries, chosen, k + 1);
    } else {
        lemma_combinations_complete(0, n, k, chosen);
        lemma_combinations_distinct(0, n, k);
        let at = choose|at: int| 0 <= at < tried.len() && tried[at] == chosen;
        assert forall|i: int| 0 <= i < tried.len() && i != at implies combination_colors(
            fixed,
            variables,
            entries,
            #[trigger] tried[i],
        ) is Ok && !feasible(fixed, variables, entries, tried[i]) by {
            assert(tried[i].len() == k);
            assert(tried[i] != tried[at]);
        }
        lemma_successes_one(fixed, variables, entries, tried, at);
    }
}

/// What the search hands out for a combination that succeeds: the values
/// that it gives up, and the colors that meet the rest.
pub open spec fn solution_of(
    fixed: Set<(Seq<bool>, Seq<bool>)>,
    variables: Seq<Seq<char>>,
    entries: Seq<(Seq<char>, Seq<(Seq<char>, bool)>)>,
    combination: Seq<usize>,
) -> (Seq<(Seq<char>, Seq<char>)>, Set<Seq<bool>>) {
    (
        selection(flat_entries(entries), combination),
        combination_colors(fixed, variables, entries, combination)->Ok_0,
    )
}

/// Whether `found` holds exactly the least relaxations of the dataset: each
/// of its entries gives up the values that some combination picks, which
/// leaves a dataset that some color meets, and stands with the colors that
/// meet the rest; all give up equally many values; no way to give up fewer
/// values succeeds; and every way to give up as many values that succeeds
/// is among them. Where `found` is empty, no way to give up values succeeds.
pub open spec fn is_least_relaxation(
    fixed: Set<(Seq<bool>, Seq<bool>)>,
    variables: Seq<Seq<char>>,
    entries: Seq<(Seq<char>, Seq<(Seq<char>, bool)>)>,
    found: Seq<(Seq<(Seq<char>, Seq<char>)>, Set<Seq<bool>>)>,
) -> bool {
    let n = flat_entries(entries).len();
    &&& forall|i: int|
        0 <= i < found.len() ==> exists|c: Seq<usize>|
            is_combination(c, 0, n) && feasible(fixed, variables, entries, c) && (
            #[trigger] found[i]) == #[trigger] solution_of(fixed, variables, entries, c)
    &&& forall|i: int| 0 <= i < found.len() ==> (#[trigger] found[i]).0.len() == found[0].0.len()
    &&& forall|c: Seq<usize>|
        is_combination(c, 0, n) && #[trigger] feasible(fixed, variables, entries, c)
            ==> found.len() > 0 && c.len() >= found[0].0.len()
    &&& forall|c: Seq<usize>|
        is_combination(c, 0, n) && #[trigger] feasible(fixed, variables, entries, c) && c.len()
            == found[0].0.len() ==> found.contains(solution_of(fixed, variables, entries, c))
}

/// The successes of a list of combinations are exactly those of its
/// combinations that leave a dataset which some color meets.
proof fn lemma_successes_exact(
    fixed: Set<(Seq<bool>, Seq<bool>)>,
    variables: Seq<Seq<char>>,
    entries: Seq<(Seq<char>, Seq<(Seq<char>, bool)>)>,
    tried: Seq<Seq<usize>>,
)
    requires
        successes(fixed, variables, entries, tried) is Ok,
    ensures
        forall|i: int|
            0 <= i < successes(fixed, variables, entries, tried)->Ok_0.len() ==> exists|j: int|
                0 <= j < tried.len() && feasible(fixed, variables, entries, tried[j]) && (
                #[trigger] successes(fixed, variables, entries, tried)->Ok_0[i]) == solution_of(
                    fixed,
                    variables,
                    entries,
                    #[trigger] tried[j],
                ),
        forall|j: int|
            0 <= j < tried.len() && feasible(fixed, variables, entries, #[trigger] tried[j])
                ==> successes(fixed, variables, entries, tried)->Ok_0.contains(
                solution_of(fixed, variables, entries, tried[j]),
            ),
    decreases tried.len(),
{
    if tried.len() > 0 {
        let prev = tried.drop_last();
        let last = tried.last();
        let found = successes(fixed, variables, entries, tried)->Ok_0;
        let before = successes(fixed, variables, entries, prev)->Ok_0;
        lemma_successes_exact(fixed, variables, entries, prev);
        assert(last == tried[tried.len() - 1]);
        assert forall|i: int| 0 <= i < found.len() implies exists|j: int|
            0 <= j < tried.len() && feasible(fixed, variables, entries, tried[j]) && (
            #[trigger] found[i]) == solution_of(fixed, variables, entries, #[trigger] tried[j]) by {
            if i < before.len() {
                assert(found[i] == before[i]);
                let j = choose|j: int|
                    0 <= j < prev.len() && feasible(fixed, variables, entries, prev[j])
                        && before[i] == solution_of(fixed, variables, entries, #[trigger] prev[j]);
                assert(prev[j] == tried[j]);
            } else {
                assert(found[i] == solution_of(fixed, variables, entries, tried[tried.len() - 1]));
            }
        }
        assert forall|j: int|
            0 <= j < tried.len() && feasible(
                fixed,
                variables,
                entries,
                #[trigger] tried[j],
            ) implies found.contains(solution_of(fixed, variables, entries, tried[j])) by {
            if j < prev.len() {
                assert(prev[j] == tried[j]);
                let at = choose|at: int|
                    0 <= at < before.len() && before[at] == solution_of(
                        fixed,
                        variables,
                        entries,
                        tried[j],
                    );
                assert(found[at] == before[at]);
            } else {
                assert(found[found.len() - 1] == solution_of(fixed, variables, entries, tried[j]));
            }
        }
    }
}

/// What the search from `k` values onwards hands out, where no way to give
/// up fewer than `k` values succeeds.
proof fn lemma_search_from_least(
    fixed: Set<(Seq<bool>, Seq<bool>)>,
    variables: Seq<Seq<char>>,
    entries: Seq<(Seq<char>, Seq<(Seq<char>, bool)>)>,
    k: nat,
)
    requires
        flat_entries(entries).len() <= usize::MAX,
        search_from(fixed, variables, entries, k) is Ok,
        forall|c: Seq<usize>|
            is_combination(c, 0, flat_entries(entries).len()) && c.len() < k ==> !#[trigger] feasible(
                fixed,
                variables,
                entries,
                c,
            ),
    ensures
        is_least_relaxation(
            fixed,
            variables,
            entries,
            search_from(fixed, variables, entries, k)->Ok_0,
        ),
    decreases flat_entries(entries).len() + 1 - k,
{
    let n = flat_entries(entries).len();
    let found = search_from(fixed, variables, entries, k)->Ok_0;
    if k > n {
        assert forall|c: Seq<usize>| is_combination(c, 0, n) implies !#[trigger] feasible(
            fixed,
            variables,
            entries,
            c,
        ) by {
            lemma_combination_len(c, n);
        }
    } else {
        let tried = combinations(n, k);
        let here = successes(fixed, variables, entries, tried)->Ok_0;
        lemma_successes_exact(fixed, variables, entries, tried);
        lemma_combinations_members(0, n, k);
        if here.len() > 0 {
            assert(found == here);
            assert forall|i: int| 0 <= i < found.len() implies (exists|c: Seq<usize>|
                is_combination(c, 0, n) && feasible(fixed, variables, entries, c) && (
                #[trigger] found[i]) == #[trigger] solution_of(fixed, variables, entries, c))
                && found[i].0.len() == k by {
                let j = choose|j: int|
                    0 <= j < tried.len() && feasible(fixed, variables, entries, tried[j])
                        && here[i] == solution_of(fixed, variables, entries, #[trigger] tried[j]);
                assert(tried[j].len() == k && is_combination(tried[j], 0, n));
            }
            assert forall|c: Seq<usize>|
                is_combination(c, 0, n) && #[trigger] feasible(fixed, variables, entries, c)
                    && c.len() == found[0].0.len() implies found.contains(
                solution_of(fixed, variables, entries, c),
            ) by {
                lemma_combinations_complete(0, n, k, c);
                let at = choose|at: int| 0 <= at < tried.len() && tried[at] == c;
            }
        } else {
            assert forall|c: Seq<usize>|
                is_combination(c, 0, n) && c.len() < k + 1 implies !#[trigger] feasible(
                fixed,
                variables,
                entries,
                c,
            ) by {
                if c.len() == k && feasible(fixed, variables, entries, c) {
                    lemma_combinations_complete(0, n, k, c);
                    let at = choose|at: int| 0 <= at < tried.len() && tried[at] == c;
                    assert(here.contains(solution_of(fixed, variables, entries, tried[at])));
                }
            }
            lemma_search_from_least(fixed, variables, entries, k + 1);
        }
    }
}

/// The search hands out exactly the least relaxations of the dataset: every
/// entry of its result gives up the values that a combination picks of
/// which the rest is met by some color, with those colors; all entries give
/// up equally many values; nothing that gives up fewer values succeeds; and
/// every success of that many values is in the result. An empty result
/// says that no relaxation succeeds.
pub proof fn lemma_search_is_least(
    fixed: Set<(Seq<bool>, Seq<bool>)>,
    variables: Seq<Seq<char>>,
    entries: Seq<(Seq<char>, Seq<(Seq<char>, bool)>)>,
)
    requires
        flat_entries(entries).len() <= usize::MAX,
        search_from(fixed, variables, entries, 0) is Ok,
    ensures
        is_least_relaxation(
            fixed,
            variables,
            entries,
            search_from(fixed, variables, entries, 0)->Ok_0,
        ),
{
    lemma_search_from_least(fixed, variables, entries, 0);
}

/// The colors under which some fixed point has the given values.
fn matching_colors(
    graph: &SymbolicAsyncGraph,
    fixed_points: &GraphColoredVertices,
    values: &Vec<(usize, bool)>,
) -> (r: GraphColors)
    requires
        colored_in(*fixed_points, *graph),
        colored_set(*fixed_points).subset_of(graph_unit(*graph)),
        forall|i: int| 0 <= i < values@.len() ==> (#[trigger] values@[i]).0 < graph_variables(*graph),
        forall|i: int, j: int|
            0 <= i < j < values@.len() ==> (#[trigger] values@[i]).0 != (#[trigger] values@[j]).0,
    ensures
        color_set(r) == matching(colored_set(*fixed_points), values@),
        colors_in(r, *graph),
{
    let space = subspace(graph, values);
    let spec_vertices = vertices_of(&space, graph);
    let matched = intersect_vertices(fixed_points, &spec_vertices, graph);
    let r = colors_of(&matched, graph);
    proof {
        let fixed = colored_set(*fixed_points);
        let expected = matching(fixed, values@);
        assert forall|c: Seq<bool>| color_set(r).contains(c) <==> expected.contains(c) by {
            if color_set(r).contains(c) {
                let s = choose|s: Seq<bool>| colored_set(matched).contains((s, c));
                assert(fixed.contains((s, c)) && vertex_set(spec_vertices).contains(s));
                let d = choose|d: Seq<bool>| colored_set(space).contains((s, d));
                assert(agrees(s, values@));
            }
            if expected.contains(c) {
                let s = choose|s: Seq<bool>| fixed.contains((s, c)) && agrees(s, values@);
                assert(graph_unit(*graph).contains((s, c)));
                assert(colored_set(space).contains((s, c)));
                assert(vertex_set(spec_vertices).contains(s));
                assert(colored_set(matched).contains((s, c)));
            }
        }
        assert(color_set(r) =~= expected);
    }
    r
}

/// The values that a specification fixes.
fn fixed_values(specification: &StateSpecification) -> (values: Vec<(usize, bool)>)
    ensures
        values@ == subspace_values(specification@),
{
    // Every value of the dataset is held as a "may".
    let optional = specification.make_optional_assertion_map();
    let mut values: Vec<(usize, bool)> = Vec::new();
    let mut i: usize = 0;
    while i < optional.len()
        invariant
            i <= optional@.len(),
            optional@ == optional_part(specification@),
            values@.len() == i,
            forall|k: int| 0 <= k < i ==> #[trigger] values@[k] == (optional@[k].0, optional@[k].1.0),
        decreases optional@.len() - i,
    {
        let (var_id, (value, _weight)) = optional[i];
        values.push((var_id, value));
        i += 1;
    }
    assert(values@ =~= subspace_values(specification@));
    values
}

/// The colors under which every specification is met by some fixed point.
fn consistent(
    graph: &SymbolicAsyncGraph,
    fixed_points: &GraphColoredVertices,
    specs: &NameMap<StateSpecification>,
) -> (r: GraphColors)
    requires
        colored_in(*fixed_points, *graph),
        colored_set(*fixed_points).subset_of(graph_unit(*graph)),
        forall|k: int|
            0 <= k < specs@.len() ==> (#[trigger] specs@[k]).1.wf() && within(
                specs@[k].1@,
                graph_variables(*graph),
            ),
    ensures
        color_set(r) == consistent_colors(
            colored_set(*fixed_points),
            map_entries(specs@, |s: StateSpecification| s@),
        ),
        colors_in(r, *graph),
{
    let ghost fixed = colored_set(*fixed_points);
    let ghost view = map_entries(specs@, |s: StateSpecification| s@);
    // Start with all colors, refine with the observations.
    let mut satisfying_colors = colors_of(fixed_points, graph);
    let mut i: usize = 0;
    assert(color_set(satisfying_colors) =~= consistent_upto(fixed, view, 0));
    while i < specs.len()
        invariant
            i <= specs@.len(),
            fixed == colored_set(*fixed_points),
            view == map_entries(specs@, |s: StateSpecification| s@),
            colored_in(*fixed_points, *graph),
            fixed.subset_of(graph_unit(*graph)),
            forall|k: int|
                0 <= k < specs@.len() ==> (#[trigger] specs@[k]).1.wf() && within(
                    specs@[k].1@,
                    graph_variables(*graph),
                ),
            colors_in(satisfying_colors, *graph),
            color_set(satisfying_colors) == consistent_upto(fixed, view, i as int),
        decreases specs@.len() - i,
    {
        let fp_subspec = specs.value(i);
        let subspace_values = fixed_values(fp_subspec);
        proof {
            assert(view[i as int].1 == fp_subspec@);
            assert(specs@[i as int].1.wf() && within(
                specs@[i as int].1@,
                graph_variables(*graph),
            ));
            crate::state_specification::lemma_optional_ordered(fp_subspec@);
            assert forall|a: int, b: int| 0 <= a < b < subspace_values@.len() implies (
            #[trigger] subspace_values@[a]).0 != (#[trigger] subspace_values@[b]).0 by {
                assert(optional_part(fp_subspec@)[a].0 < optional_part(fp_subspec@)[b].0);
            }
            assert forall|k: int| 0 <= k < subspace_values@.len() implies (
            #[trigger] subspace_values@[k]).0 < graph_variables(*graph) by {
                let e = optional_part(fp_subspec@)[k];
                assert(optional_part(fp_subspec@).contains(e));
                crate::state_specification::lemma_optional_sound(fp_subspec@, e);
            }
        }
        let matched_colors = matching_colors(graph, fixed_points, &subspace_values);
        let ghost before = color_set(satisfying_colors);
        satisfying_colors = intersect_colors(&satisfying_colors, &matched_colors, graph);
        proof {
            assert forall|c: Seq<bool>| color_set(satisfying_colors).contains(c)
                <==> consistent_upto(fixed, view, i + 1).contains(c) by {
                if color_set(satisfying_colors).contains(c) {
                    assert(before.contains(c));
                    assert forall|k: int| 0 <= k < i + 1 implies #[trigger] matching(
                        fixed,
                        crate::naive_inference::subspace_values(view[k].1),
                    ).contains(c) by {
                        if k < i {
                            assert(consistent_upto(fixed, view, i as int).contains(c));
                        }
                    }
                }
                if consistent_upto(fixed, view, i + 1).contains(c) {
                    assert(matching(
                        fixed,
                        crate::naive_inference::subspace_values(view[i as int].1),
                    ).contains(c));
                    assert(consistent_upto(fixed, view, i as int).contains(c));
                }
            }
            assert(color_set(satisfying_colors) =~= consistent_upto(fixed, view, i + 1));
        }
        if colors_empty(&satisfying_colors) {
            // No color is left, and none comes back.
            proof {
                assert forall|c: Seq<bool>| !consistent_colors(fixed, view).contains(c) by {
                    if consistent_colors(fixed, view).contains(c) {
                        assert forall|k: int| 0 <= k < i + 1 implies #[trigger] matching(
                            fixed,
                            crate::naive_inference::subspace_values(view[k].1),
                        ).contains(c) by {}
                        assert(consistent_upto(fixed, view, i + 1).contains(c));
                    }
                }
                assert(color_set(satisfying_colors) =~= consistent_colors(fixed, view));
            }
            return satisfying_colors;
        }
        i += 1;
    }
    satisfying_colors
}

/// The search itself, on a graph and its fixed points: for every number of
/// values given up, from none to all, every combination of so many values of
/// the dataset is left out in turn, in lexicographic order of the positions
/// of the values, and the rest is held against the fixed points. The search
/// ends with the first number for which some combination leaves a dataset
/// that some color meets, and hands out all such combinations of that number,
/// each with the colors that meet the rest. A variable that is not among
/// `variables` is an error.
pub fn search(
    graph: &SymbolicAsyncGraph,
    fixed_points: &GraphColoredVertices,
    variables: &Vec<String>,
    dataset_spec: &Dataset,
) -> (r: Result<Vec<(Vec<(String, String)>, GraphColors)>, String>)
    requires
        dataset_spec.wf(),
        colored_in(*fixed_points, *graph),
        colored_set(*fixed_points).subset_of(graph_unit(*graph)),
        variables@.len() == graph_variables(*graph),
    ensures
        is_search_outcome(
            r,
            search_from(
                colored_set(*fixed_points),
                names(variables@),
                dataset_spec.entries(),
                0,
            ),
        ),
{
    let ghost fixed = colored_set(*fixed_points);
    let ghost entries = dataset_spec.entries();
    // The list of the values, each named by observation and variable.
    let indices = specification_entries(dataset_spec);
    let n = indices.len();
    assert(pair_views(indices@).len() == n);

    // Give up more and more of the values.
    let mut num_to_remove: usize = 0;
    loop
        invariant
            num_to_remove <= n,
            n == indices@.len(),
            n == flat_entries(entries).len(),
            fixed == colored_set(*fixed_points),
            entries == dataset_spec.entries(),
            pair_views(indices@) == flat_entries(entries),
            dataset_spec.wf(),
            colored_in(*fixed_points, *graph),
            fixed.subset_of(graph_unit(*graph)),
            variables@.len() == graph_variables(*graph),
            search_from(fixed, names(variables@), entries, 0) == search_from(
                fixed,
                names(variables@),
                entries,
                num_to_remove as nat,
            ),
        decreases n - num_to_remove,
    {
        // All combinations of so many values.
        let candidates = position_combinations(n, num_to_remove);
        let ghost tried = combinations(n as nat, num_to_remove as nat);
        let mut optimal_solutions: Vec<(Vec<(String, String)>, GraphColors)> = Vec::new();
        let mut c: usize = 0;
        proof {
            lemma_combinations_members(0, n as nat, num_to_remove as nat);
            assert(tried.take(0) =~= Seq::<Seq<usize>>::empty());
            assert(solution_views(optimal_solutions@) =~= Seq::<
                (Seq<(Seq<char>, Seq<char>)>, Set<Seq<bool>>),
            >::empty());
        }
        while c < candidates.len()
            invariant
                c <= candidates@.len(),
                tried == combinations(n as nat, num_to_remove as nat),
                combination_views(candidates@) == tried,
                candidates@.len() == tried.len(),
                forall|i: int|
                    0 <= i < tried.len() ==> is_combination(#[trigger] tried[i], 0, n as nat),
                n == indices@.len(),
                n == flat_entries(entries).len(),
                num_to_remove <= n,
                search_from(fixed, names(variables@), entries, 0) == search_from(
                    fixed,
                    names(variables@),
                    entries,
                    num_to_remove as nat,
                ),
                fixed == colored_set(*fixed_points),
                entries == dataset_spec.entries(),
                pair_views(indices@) == flat_entries(entries),
                dataset_spec.wf(),
                colored_in(*fixed_points, *graph),
                fixed.subset_of(graph_unit(*graph)),
                variables@.len() == graph_variables(*graph),
                successes(fixed, names(variables@), entries, tried.take(c as int)) == Ok::<
                    Seq<(Seq<(Seq<char>, Seq<char>)>, Set<Seq<bool>>)>,
                    Seq<char>,
                >(solution_views(optimal_solutions@)),
            decreases candidates@.len() - c,
        {
            let combination = &candidates[c];
            proof {
                assert(tried[c as int] == combination@);
                assert(is_combination(tried[c as int], 0, n as nat));
                assert(tried.take(c + 1).drop_last() =~= tried.take(c as int));
                assert(tried.take(c + 1).last() == combination@);
            }
            let ignore_set = select_entries(&indices, combination);
            let loosened_dataset_spec = loosen_specification(dataset_spec, ignore_set.as_slice());
            let current_spec = match loosened_dataset_spec.specifications_for(variables) {
                Ok(current_spec) => current_spec,
                Err(message) => {
                    proof {
                        lemma_successes_error(fixed, names(variables@), entries, tried, c + 1);
                    }
                    return Err(message);
                },
            };
            let satisfying_colors = consistent(graph, fixed_points, &current_spec);
            if !colors_empty(&satisfying_colors) {
                let ghost before = solution_views(optimal_solutions@);
                let ghost key = pair_views(ignore_set@);
                let ghost colors = color_set(satisfying_colors);
                optimal_solutions.push((ignore_set, satisfying_colors));
                proof {
                    assert(solution_views(optimal_solutions@) =~= before.push((key, colors)));
                }
            }
            c += 1;
        }
        proof {
            assert(tried.take(c as int) =~= tried);
            assert(solution_views(optimal_solutions@).len() == optimal_solutions@.len());
        }
        // Done once some combination has succeeded.
        if optimal_solutions.len() > 0 {
            return Ok(optimal_solutions);
        }
        if num_to_remove == n {
            proof {
                assert(search_from(fixed, names(variables@), entries, (n + 1) as nat) == Ok::<
                    Seq<(Seq<(Seq<char>, Seq<char>)>, Set<Seq<bool>>)>,
                    Seq<char>,
                >(Seq::empty()));
                assert(solution_views(optimal_solutions@) =~= Seq::<
                    (Seq<(Seq<char>, Seq<char>)>, Set<Seq<bool>>),
                >::empty());
            }
            return Ok(optimal_solutions);
        }
        num_to_remove += 1;
    }
}

/// The message on a network that the engine cannot take.
fn unfit_network() -> (message: String)
    ensures
        message@ == unfit_network_message(),
{
    String::from_str(
        "The network cannot be encoded symbolically: a name holds one of !&|^=<>()?: or is that of a row of a function table, an update function or a regulation names what the network does not have, or more than 65534 symbolic variables are needed.",
    )
}

/// What the search starts from: the graph that the engine makes of the
/// network, the fixed points of all its states and colors, and the names of
/// the components. A network that the engine cannot take or refuses is an
/// error.
pub fn network_fixed_points(bn: &BooleanNetwork) -> (r: Result<
    (SymbolicAsyncGraph, GraphColoredVertices, Vec<String>),
    String,
>)
    ensures
        !network_fits(*bn) ==> r is Err && r->Err_0@ == unfit_network_message(),
        network_fits(*bn) ==> match symbolic_graph_of(*bn) {
            Err(message) => r is Err && r->Err_0@ == message,
            Ok(graph) => {
                &&& r is Ok
                &&& r->Ok_0.0 == graph
                &&& colored_in(r->Ok_0.1, graph)
                &&& colored_set(r->Ok_0.1) == graph_fixed_points(graph).intersect(
                    graph_unit(graph),
                )
                &&& names(r->Ok_0.2@) == network_variables(*bn)
                &&& r->Ok_0.2@.len() == graph_variables(graph)
            },
        },
{
    // A network that the engine would panic on.
    if !engine_takes_network(bn) {
        return Err(unfit_network());
    }
    // The graph of the network.
    let stg = match symbolic_graph(bn) {
        Ok(stg) => stg,
        Err(message) => {
            return Err(message);
        },
    };
    let variables = network_variable_names(bn);
    // All fixed points, symbolically.
    let unit = unit_colored_vertices(&stg);
    let fixed_points = symbolic_fixed_points(&stg, &unit);
    assert(names(variables@).len() == variables@.len());
    Ok((stg, fixed_points, variables))
}

/// Finds the fewest observed values of the dataset that have to be given up
/// for the rest to be met by fixed points of the network under one color,
/// and hands out every way to give up so many values that does it, each with
/// the colors that meet the rest. The fixed points are those of all states
/// and colors of the graph that the engine makes of the network, and are
/// computed once. A network that the engine cannot take or refuses, and a
/// variable that the network does not have, are errors.
pub fn run_naive_inference(bn: &BooleanNetwork, dataset_spec: &Dataset) -> (r: Result<
    Vec<(Vec<(String, String)>, GraphColors)>,
    String,
>)
    requires
        dataset_spec.wf(),
    ensures
        !network_fits(*bn) ==> r is Err && r->Err_0@ == unfit_network_message(),
        network_fits(*bn) ==> match symbolic_graph_of(*bn) {
            Err(message) => r is Err && r->Err_0@ == message,
            Ok(graph) => is_search_outcome(
                r,
                search_from(
                    graph_fixed_points(graph).intersect(graph_unit(graph)),
                    network_variables(*bn),
                    dataset_spec.entries(),
                    0,
                ),
            ),
        },
{
    match network_fixed_points(bn) {
        Ok((stg, fixed_points, variables)) => search(&stg, &fixed_points, &variables, dataset_spec),
        Err(message) => Err(message),
    }
}

} // verus!
