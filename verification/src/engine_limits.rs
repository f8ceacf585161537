//! What the symbolic engine can take. The engine gives a symbolic variable
//! to every component and to every row of the truth table of every open
//! function: of every uninterpreted function that an update function
//! applies, and of the unnamed function that stands for a missing update
//! function. It panics on a name that it cannot use for a variable, on a
//! component that is named as a row is, on more variables than it can hold,
//! and on an update function or a regulation that names a component or a
//! function that the network does not have. The networks with one of these
//! faults are found here before the engine is called.
//!
//! The engine itself keeps the names of the components apart, and those of
//! the functions: it makes no network in which two of either have one name.

use crate::symbolic::{
    network_applied_function_list, network_applied_functions, network_argument_list,
    network_arguments, network_function_list, network_functions, network_has_update,
    network_regulation_ends, network_regulation_list, network_regulator_counts,
    network_regulator_numbers, network_update_flags, network_variable_names, network_variables,
};
use crate::name_map::str_equal;
use crate::text::names;
use crate::truth_table::{table_rows, table_size};
use biodivine_lib_param_bn::BooleanNetwork;
use vstd::prelude::*;
use vstd::string::*;

verus! {

/// The number of symbolic variables that the engine can hold.
pub const SYMBOLIC_LIMIT: usize = 65534;

/// Whether the engine refuses a name that holds the character: these are the
/// characters of its own Boolean expressions.
pub open spec fn refused_char(c: char) -> bool {
    c == '!' || c == '&' || c == '|' || c == '^' || c == '=' || c == '<' || c == '>' || c == '('
        || c == ')' || c == '?' || c == ':'
}

/// Whether the engine can use the name in those of its symbolic variables:
/// it holds no character that the engine refuses.
pub open spec fn name_is_usable(name: Seq<char>) -> bool {
    forall|i: int| 0 <= i < name.len() ==> !refused_char(#[trigger] name[i])
}

/// The length of what follows the name of a function in the name of a row
/// of its truth table.
pub open spec fn row_tail(arity: nat) -> nat {
    if arity == 0 {
        2
    } else {
        2 * arity + 1
    }
}

/// Whether `name` is the name of a row of the truth table of a function
/// named `base` of the given arity: `base`, then `[`, then a `0` or a `1` for
/// each argument, with commas between them, then `]`.
pub open spec fn is_row_of(name: Seq<char>, base: Seq<char>, arity: nat) -> bool {
    let start = base.len() as int;
    &&& name.len() == base.len() + row_tail(arity)
    &&& name.subrange(0, start) == base
    &&& name[start] == '['
    &&& name.last() == ']'
    &&& forall|p: int|
        start < p < name.len() - 1 ==> if (p - start) % 2 == 1 {
            #[trigger] name[p] == '0' || name[p] == '1'
        } else {
            name[p] == ','
        }
}

/// The `k`-th name that the engine tries for the unnamed function of a
/// component: `f_` and the name of the component, behind `k` underscores.
pub open spec fn implicit_candidate(k: nat, variable: Seq<char>) -> Seq<char>
    decreases k,
{
    if k == 0 {
        "f_"@ + variable
    } else {
        "_"@ + implicit_candidate((k - 1) as nat, variable)
    }
}

/// Whether a component or a function has the name.
pub open spec fn is_taken(
    name: Seq<char>,
    variables: Seq<Seq<char>>,
    functions: Seq<(Seq<char>, nat)>,
) -> bool {
    ||| exists|i: int| 0 <= i < variables.len() && #[trigger] variables[i] == name
    ||| exists|j: int| 0 <= j < functions.len() && (#[trigger] functions[j]).0 == name
}

/// Whether the engine names the unnamed function of the component by its
/// `k`-th try: that name is the first that neither a component nor a
/// function has.
pub open spec fn is_implicit_name(
    k: nat,
    variable: Seq<char>,
    variables: Seq<Seq<char>>,
    functions: Seq<(Seq<char>, nat)>,
) -> bool {
    &&& !is_taken(implicit_candidate(k, variable), variables, functions)
    &&& forall|j: nat|
        j < k ==> is_taken(#[trigger] implicit_candidate(j, variable), variables, functions)
}

/// Whether `name` is the name of a row of the truth table of the unnamed
/// function of a component with so many regulators.
pub open spec fn is_implicit_row(
    name: Seq<char>,
    variable: Seq<char>,
    regulators: nat,
    variables: Seq<Seq<char>>,
    functions: Seq<(Seq<char>, nat)>,
) -> bool {
    exists|k: nat| #[trigger]
        is_implicit_name(k, variable, variables, functions) && is_row_of(
            name,
            implicit_candidate(k, variable),
            regulators,
        )
}

/// Whether `name` is the name of a row of a truth table of the network: of
/// a function that is applied, or of the unnamed function of a component
/// without an update function.
pub open spec fn is_row_name(
    name: Seq<char>,
    variables: Seq<Seq<char>>,
    functions: Seq<(Seq<char>, nat)>,
    has_update: Seq<bool>,
    regulators: Seq<nat>,
    applied: Seq<Seq<nat>>,
) -> bool {
    ||| exists|f: int|
        0 <= f < functions.len() && is_applied(applied, f as nat) && is_row_of(
            name,
            (#[trigger] functions[f]).0,
            functions[f].1,
        )
    ||| exists|v: int|
        0 <= v < variables.len() && !has_update[v] && is_implicit_row(
            name,
            #[trigger] variables[v],
            regulators[v],
            variables,
            functions,
        )
}

/// The rows of the truth tables of the first `n` functions, together.
pub open spec fn function_rows(functions: Seq<(Seq<char>, nat)>, n: nat) -> nat
    decreases n,
{
    if n == 0 {
        0
    } else {
        function_rows(functions, (n - 1) as nat) + table_size(functions[n - 1].1)
    }
}

/// The rows of the truth tables that stand for the missing update functions
/// among the first `n` components, together: a component without an update
/// function has an unnamed function of its regulators.
pub open spec fn open_rows(has_update: Seq<bool>, regulators: Seq<nat>, n: nat) -> nat
    decreases n,
{
    if n == 0 {
        0
    } else if has_update[n - 1] {
        open_rows(has_update, regulators, (n - 1) as nat)
    } else {
        open_rows(has_update, regulators, (n - 1) as nat) + table_size(regulators[n - 1])
    }
}

/// The rows of the truth tables of those of the first `n` functions that
/// are applied, together.
pub open spec fn applied_rows(
    functions: Seq<(Seq<char>, nat)>,
    applied: Seq<Seq<nat>>,
    n: nat,
) -> nat
    decreases n,
{
    if n == 0 {
        0
    } else if is_applied(applied, (n - 1) as nat) {
        applied_rows(functions, applied, (n - 1) as nat) + table_size(functions[n - 1].1)
    } else {
        applied_rows(functions, applied, (n - 1) as nat)
    }
}

/// The rows of all truth tables of a network, together.
pub open spec fn all_rows(
    functions: Seq<(Seq<char>, nat)>,
    has_update: Seq<bool>,
    regulators: Seq<nat>,
) -> nat {
    function_rows(functions, functions.len()) + open_rows(has_update, regulators, has_update.len())
}

/// Whether every index of every list is below the bound.
pub open spec fn indices_below(lists: Seq<Seq<nat>>, bound: nat) -> bool {
    forall|i: int, j: int|
        0 <= i < lists.len() && 0 <= j < lists[i].len() ==> (#[trigger] lists[i][j]) < bound
}

/// Whether both ends of every regulation are below the bound.
pub open spec fn ends_below(ends: Seq<(nat, nat)>, bound: nat) -> bool {
    forall|i: int| 0 <= i < ends.len() ==> (#[trigger] ends[i]).0 < bound && ends[i].1 < bound
}

/// Whether some update function applies the function of the given index.
pub open spec fn is_applied(applied: Seq<Seq<nat>>, function: nat) -> bool {
    exists|i: int, j: int|
        0 <= i < applied.len() && 0 <= j < applied[i].len() && #[trigger] applied[i][j] == function
}

/// Whether the engine can take a network of these components, functions,
/// update functions and regulations without a panic. Where the truth tables
/// of all functions have more rows than the engine can hold, it says so
/// itself. Otherwise it must be able to use the name of every component and
/// of every function that is applied; every index of a function or of a
/// component in an update function, and both ends of every regulation, must
/// be in the network; the components and the rows of the tables that the
/// engine makes must together be no more than it can hold; and no component
/// may be named as one of these rows is.
pub open spec fn engine_takes(
    variables: Seq<Seq<char>>,
    functions: Seq<(Seq<char>, nat)>,
    has_update: Seq<bool>,
    regulators: Seq<nat>,
    applied: Seq<Seq<nat>>,
    arguments: Seq<Seq<nat>>,
    ends: Seq<(nat, nat)>,
) -> bool {
    &&& has_update.len() == variables.len()
    &&& regulators.len() == variables.len()
    &&& all_rows(functions, has_update, regulators) > SYMBOLIC_LIMIT || {
        &&& forall|i: int| 0 <= i < variables.len() ==> name_is_usable(#[trigger] variables[i])
        &&& forall|i: int|
            0 <= i < functions.len() && is_applied(applied, i as nat) ==> name_is_usable(
                (#[trigger] functions[i]).0,
            )
        &&& indices_below(applied, functions.len())
        &&& indices_below(arguments, variables.len())
        &&& ends_below(ends, variables.len())
        &&& variables.len() + applied_rows(functions, applied, functions.len()) + open_rows(
            has_update,
            regulators,
            has_update.len(),
        ) <= SYMBOLIC_LIMIT
        &&& forall|i: int|
            0 <= i < variables.len() ==> !is_row_name(
                #[trigger] variables[i],
                variables,
                functions,
                has_update,
                regulators,
                applied,
            )
    }
}

/// Whether the engine can take the network without a panic.
pub open spec fn network_fits(network: BooleanNetwork) -> bool {
    engine_takes(
        network_variables(network),
        network_functions(network),
        network_has_update(network),
        network_regulator_counts(network),
        network_applied_functions(network),
        network_arguments(network),
        network_regulation_ends(network),
    )
}

/// What is said of a network that the engine cannot take.
pub open spec fn unfit_network_message() -> Seq<char> {
    "The network cannot be encoded symbolically: a name holds one of !&|^=<>()?: or is that of a row of a function table, an update function or a regulation names what the network does not have, or more than 65534 symbolic variables are needed."@
}

/// The functions as mathematical values.
pub open spec fn function_views(functions: Seq<(String, usize)>) -> Seq<(Seq<char>, nat)> {
    Seq::new(functions.len(), |i: int| (functions[i].0@, functions[i].1 as nat))
}

/// The numbers as mathematical values.
pub open spec fn count_views(counts: Seq<usize>) -> Seq<nat> {
    Seq::new(counts.len(), |i: int| counts[i] as nat)
}

/// The lists of indices as mathematical values.
pub open spec fn list_views(lists: Seq<Vec<usize>>) -> Seq<Seq<nat>> {
    Seq::new(lists.len(), |i: int| count_views(lists[i]@))
}

/// The ends of regulations as mathematical values.
pub open spec fn end_views(ends: Seq<(usize, usize)>) -> Seq<(nat, nat)> {
    Seq::new(ends.len(), |i: int| (ends[i].0 as nat, ends[i].1 as nat))
}

/// More functions have at least as many rows.
proof fn lemma_function_rows_grow(functions: Seq<(Seq<char>, nat)>, n: nat, m: nat)
    requires
        n <= m,
    ensures
        function_rows(functions, n) <= function_rows(functions, m),
    decreases m,
{
    if n < m {
        lemma_function_rows_grow(functions, n, (m - 1) as nat);
    }
}

/// More components have at least as many rows.
proof fn lemma_open_rows_grow(has_update: Seq<bool>, regulators: Seq<nat>, n: nat, m: nat)
    requires
        n <= m,
    ensures
        open_rows(has_update, regulators, n) <= open_rows(has_update, regulators, m),
    decreases m,
{
    if n < m {
        lemma_open_rows_grow(has_update, regulators, n, (m - 1) as nat);
    }
}

/// The rows of the functions that are applied are among the rows of all.
proof fn lemma_applied_rows_within(
    functions: Seq<(Seq<char>, nat)>,
    applied: Seq<Seq<nat>>,
    n: nat,
)
    ensures
        applied_rows(functions, applied, n) <= function_rows(functions, n),
    decreases n,
{
    if n > 0 {
        lemma_applied_rows_within(functions, applied, (n - 1) as nat);
    }
}

/// The length of a name that the engine tries for an unnamed function.
proof fn lemma_candidate_len(k: nat, variable: Seq<char>)
    ensures
        implicit_candidate(k, variable).len() == k + 2 + variable.len(),
    decreases k,
{
    reveal_strlit("f_");
    reveal_strlit("_");
    if k > 0 {
        lemma_candidate_len((k - 1) as nat, variable);
    }
}

/// Whether the engine can use the name in those of its symbolic variables.
pub fn name_fits(name: &str) -> (b: bool)
    ensures
        b == name_is_usable(name@),
{
    let n = name.unicode_len();
    let mut i: usize = 0;
    while i < n
        invariant
            i <= n,
            n == name@.len(),
            forall|j: int| 0 <= j < i ==> !refused_char(#[trigger] name@[j]),
        decreases n - i,
    {
        let c = name.get_char(i);
        if c == '!' || c == '&' || c == '|' || c == '^' || c == '=' || c == '<' || c == '>' || c
            == '(' || c == ')' || c == '?' || c == ':' {
            return false;
        }
        i += 1;
    }
    true
}

/// Whether `name` is the name of a row of the truth table of a function
/// named `base` of the given arity.
#[verifier::loop_isolation(false)]
pub fn is_row(name: &str, base: &str, arity: usize) -> (b: bool)
    ensures
        b == is_row_of(name@, base@, arity as nat),
{
    let n = name.unicode_len();
    let m = base.unicode_len();
    if arity > (usize::MAX - 1) / 2 {
        return false;
    }
    let tail: usize = if arity == 0 {
        2
    } else {
        2 * arity + 1
    };
    if n < tail || n - tail != m {
        return false;
    }
    let mut i: usize = 0;
    while i < m
        invariant
            i <= m,
            forall|j: int| 0 <= j < i ==> name@[j] == base@[j],
        decreases m - i,
    {
        if name.get_char(i) != base.get_char(i) {
            assert(name@.subrange(0, m as int)[i as int] == name@[i as int]);
            return false;
        }
        i += 1;
    }
    assert(name@.subrange(0, m as int) =~= base@);
    if name.get_char(m) != '[' || name.get_char(n - 1) != ']' {
        return false;
    }
    let mut p: usize = m + 1;
    while p < n - 1
        invariant
            m < p <= n - 1,
            forall|q: int|
                m < q < p ==> if (q - m) % 2 == 1 {
                    #[trigger] name@[q] == '0' || name@[q] == '1'
                } else {
                    name@[q] == ','
                },
        decreases n - p,
    {
        let c = name.get_char(p);
        if (p - m) % 2 == 1 {
            if c != '0' && c != '1' {
                return false;
            }
        } else if c != ',' {
            return false;
        }
        p += 1;
    }
    true
}

/// Whether a component or a function has the name.
#[verifier::loop_isolation(false)]
fn name_is_taken(name: &str, variables: &Vec<String>, functions: &Vec<(String, usize)>) -> (b:
    bool)
    ensures
        b == is_taken(name@, names(variables@), function_views(functions@)),
{
    let ghost vnames = names(variables@);
    let ghost fviews = function_views(functions@);
    let mut i: usize = 0;
    while i < variables.len()
        invariant
            i <= variables@.len(),
            forall|x: int| 0 <= x < i ==> #[trigger] vnames[x] != name@,
        decreases variables@.len() - i,
    {
        if str_equal(variables[i].as_str(), name) {
            assert(vnames[i as int] == name@);
            return true;
        }
        i += 1;
    }
    let mut j: usize = 0;
    while j < functions.len()
        invariant
            j <= functions@.len(),
            forall|x: int| 0 <= x < j ==> (#[trigger] fviews[x]).0 != name@,
        decreases functions@.len() - j,
    {
        if str_equal(functions[j].0.as_str(), name) {
            assert(fviews[j as int].0 == name@);
            return true;
        }
        j += 1;
    }
    false
}

/// Whether `name` is the name of a row of the truth table of the unnamed
/// function of the component `variable` with so many regulators.
#[verifier::loop_isolation(false)]
fn is_unnamed_row(
    name: &str,
    variable: &str,
    regulators: usize,
    variables: &Vec<String>,
    functions: &Vec<(String, usize)>,
) -> (b: bool)
    ensures
        b == is_implicit_row(
            name@,
            variable@,
            regulators as nat,
            names(variables@),
            function_views(functions@),
        ),
{
    let ghost vnames = names(variables@);
    let ghost fviews = function_views(functions@);
    let n = name.unicode_len();
    let mut candidate = String::from_str("f_");
    candidate.append(variable);
    let mut k: usize = 0;
    proof {
        lemma_candidate_len(0, variable@);
    }
    while candidate.as_str().unicode_len() < n
        invariant
            candidate@ == implicit_candidate(k as nat, variable@),
            candidate@.len() == k + 2 + variable@.len(),
            k <= n,
            forall|j: nat|
                j < k ==> is_taken(#[trigger] implicit_candidate(j, variable@), vnames, fviews),
        decreases n - k,
    {
        if !name_is_taken(candidate.as_str(), variables, functions) {
            let b = is_row(name, candidate.as_str(), regulators);
            proof {
                assert(is_implicit_name(k as nat, variable@, vnames, fviews));
                if !b {
                    assert forall|other: nat| #[trigger]
                        is_implicit_name(other, variable@, vnames, fviews) implies !is_row_of(
                        name@,
                        implicit_candidate(other, variable@),
                        regulators as nat,
                    ) by {
                        if other < k {
                            assert(is_taken(implicit_candidate(other, variable@), vnames, fviews));
                        } else if other > k {
                            assert(is_taken(
                                implicit_candidate(k as nat, variable@),
                                vnames,
                                fviews,
                            ));
                        }
                    }
                }
            }
            return b;
        }
        let mut longer = String::from_str("_");
        longer.append(candidate.as_str());
        candidate = longer;
        k += 1;
        proof {
            lemma_candidate_len(k as nat, variable@);
        }
    }
    proof {
        assert forall|other: nat| #[trigger]
            is_implicit_name(other, variable@, vnames, fviews) implies !is_row_of(
            name@,
            implicit_candidate(other, variable@),
            regulators as nat,
        ) by {
            lemma_candidate_len(other, variable@);
            if other < k {
                assert(is_taken(implicit_candidate(other, variable@), vnames, fviews));
            }
        }
    }
    false
}

/// Whether `name` is the name of a row of a truth table of the network.
#[verifier::loop_isolation(false)]
fn names_a_row(
    name: &str,
    variables: &Vec<String>,
    functions: &Vec<(String, usize)>,
    has_update: &Vec<bool>,
    regulators: &Vec<usize>,
    applied: &Vec<Vec<usize>>,
) -> (b: bool)
    requires
        has_update@.len() == variables@.len(),
        regulators@.len() == variables@.len(),
    ensures
        b == is_row_name(
            name@,
            names(variables@),
            function_views(functions@),
            has_update@,
            count_views(regulators@),
            list_views(applied@),
        ),
{
    let ghost vnames = names(variables@);
    let ghost fviews = function_views(functions@);
    let ghost rviews = count_views(regulators@);
    let ghost lists = list_views(applied@);
    let n = name.unicode_len();
    // Every row ends with a bracket.
    if n == 0 || name.get_char(n - 1) != ']' {
        return false;
    }
    let mut f: usize = 0;
    while f < functions.len()
        invariant
            f <= functions@.len(),
            forall|x: int|
                0 <= x < f ==> !(is_applied(lists, x as nat) && is_row_of(
                    name@,
                    (#[trigger] fviews[x]).0,
                    fviews[x].1,
                )),
        decreases functions@.len() - f,
    {
        assert(fviews[f as int] == (functions@[f as int].0@, functions@[f as int].1 as nat));
        if lists_hold(applied, f) && is_row(name, functions[f].0.as_str(), functions[f].1) {
            return true;
        }
        f += 1;
    }
    let mut v: usize = 0;
    while v < variables.len()
        invariant
            v <= variables@.len(),
            forall|x: int|
                0 <= x < v ==> !(!has_update@[x] && is_implicit_row(
                    name@,
                    #[trigger] vnames[x],
                    rviews[x],
                    vnames,
                    fviews,
                )),
        decreases variables@.len() - v,
    {
        assert(rviews[v as int] == regulators@[v as int]);
        assert(vnames[v as int] == variables@[v as int]@);
        if !has_update[v] && is_unnamed_row(
            name,
            variables[v].as_str(),
            regulators[v],
            variables,
            functions,
        ) {
            return true;
        }
        v += 1;
    }
    false
}

/// The sum of `total` and the rows of a truth table of the given arity, if it
/// is within what the engine can hold.
fn with_rows(total: usize, arity: usize) -> (r: Option<usize>)
    ensures
        r is Some <==> total + table_size(arity as nat) <= SYMBOLIC_LIMIT,
        r matches Some(sum) ==> sum == total + table_size(arity as nat),
{
    match table_rows(arity) {
        Some(rows) => {
            if total <= SYMBOLIC_LIMIT && rows <= SYMBOLIC_LIMIT - total {
                Some(total + rows)
            } else {
                None
            }
        },
        None => None,
    }
}

/// The rows of all truth tables together, if they are no more than the
/// engine can hold.
#[verifier::loop_isolation(false)]
fn rows_within(functions: &Vec<(String, usize)>, has_update: &Vec<bool>, regulators: &Vec<usize>) -> (r:
    Option<usize>)
    requires
        has_update@.len() == regulators@.len(),
    ensures
        r is Some <==> all_rows(function_views(functions@), has_update@, count_views(regulators@))
            <= SYMBOLIC_LIMIT,
        r matches Some(rows) ==> rows == all_rows(
            function_views(functions@),
            has_update@,
            count_views(regulators@),
        ),
{
    let ghost fviews = function_views(functions@);
    let ghost rviews = count_views(regulators@);
    let mut total: usize = 0;
    let mut f: usize = 0;
    while f < functions.len()
        invariant
            f <= functions@.len(),
            total == function_rows(fviews, f as nat),
            total <= SYMBOLIC_LIMIT,
        decreases functions@.len() - f,
    {
        assert(fviews[f as int].1 == functions@[f as int].1);
        match with_rows(total, functions[f].1) {
            Some(sum) => {
                total = sum;
            },
            None => {
                proof {
                    lemma_function_rows_grow(fviews, (f + 1) as nat, fviews.len());
                }
                return None;
            },
        }
        f += 1;
    }
    let mut v: usize = 0;
    while v < has_update.len()
        invariant
            v <= has_update@.len(),
            total == function_rows(fviews, fviews.len()) + open_rows(
                has_update@,
                rviews,
                v as nat,
            ),
            total <= SYMBOLIC_LIMIT,
        decreases has_update@.len() - v,
    {
        if !has_update[v] {
            assert(rviews[v as int] == regulators@[v as int]);
            match with_rows(total, regulators[v]) {
                Some(sum) => {
                    total = sum;
                },
                None => {
                    proof {
                        lemma_open_rows_grow(
                            has_update@,
                            rviews,
                            (v + 1) as nat,
                            has_update@.len() as nat,
                        );
                    }
                    return None;
                },
            }
        }
        v += 1;
    }
    Some(total)
}

/// The rows of the truth tables that the engine makes, together: those of
/// the functions that are applied and of the unnamed functions.
#[verifier::loop_isolation(false)]
fn made_rows(
    functions: &Vec<(String, usize)>,
    has_update: &Vec<bool>,
    regulators: &Vec<usize>,
    applied: &Vec<Vec<usize>>,
) -> (r: usize)
    requires
        has_update@.len() == regulators@.len(),
        all_rows(function_views(functions@), has_update@, count_views(regulators@))
            <= SYMBOLIC_LIMIT,
    ensures
        r == applied_rows(function_views(functions@), list_views(applied@), functions@.len() as nat)
            + open_rows(has_update@, count_views(regulators@), has_update@.len() as nat),
        r <= SYMBOLIC_LIMIT,
{
    let ghost fviews = function_views(functions@);
    let ghost rviews = count_views(regulators@);
    let ghost lists = list_views(applied@);
    let mut total: usize = 0;
    let mut f: usize = 0;
    while f < functions.len()
        invariant
            f <= functions@.len(),
            total == applied_rows(fviews, lists, f as nat),
        decreases functions@.len() - f,
    {
        assert(fviews[f as int].1 == functions@[f as int].1);
        proof {
            lemma_applied_rows_within(fviews, lists, (f + 1) as nat);
            lemma_function_rows_grow(fviews, (f + 1) as nat, fviews.len());
        }
        if lists_hold(applied, f) {
            match with_rows(total, functions[f].1) {
                Some(sum) => {
                    total = sum;
                },
                None => {
                    assert(false);
                },
            }
        }
        f += 1;
    }
    let mut v: usize = 0;
    proof {
        lemma_applied_rows_within(fviews, lists, fviews.len());
    }
    while v < has_update.len()
        invariant
            v <= has_update@.len(),
            total == applied_rows(fviews, lists, fviews.len()) + open_rows(
                has_update@,
                rviews,
                v as nat,
            ),
        decreases has_update@.len() - v,
    {
        proof {
            lemma_open_rows_grow(has_update@, rviews, (v + 1) as nat, has_update@.len() as nat);
        }
        if !has_update[v] {
            assert(rviews[v as int] == regulators@[v as int]);
            match with_rows(total, regulators[v]) {
                Some(sum) => {
                    total = sum;
                },
                None => {
                    assert(false);
                },
            }
        }
        v += 1;
    }
    total
}

/// Whether every index of every list is below the bound.
#[verifier::loop_isolation(false)]
fn lists_below(lists: &Vec<Vec<usize>>, bound: usize) -> (b: bool)
    ensures
        b == indices_below(list_views(lists@), bound as nat),
{
    let ghost views = list_views(lists@);
    let mut i: usize = 0;
    while i < lists.len()
        invariant
            i <= lists@.len(),
            forall|x: int, y: int|
                0 <= x < i && 0 <= y < views[x].len() ==> (#[trigger] views[x][y]) < bound,
        decreases lists@.len() - i,
    {
        let list = &lists[i];
        assert(views[i as int] == count_views(list@));
        let mut j: usize = 0;
        while j < list.len()
            invariant
                j <= list@.len(),
                forall|y: int| 0 <= y < j ==> (#[trigger] views[i as int][y]) < bound,
            decreases list@.len() - j,
        {
            assert(views[i as int][j as int] == list@[j as int]);
            if list[j] >= bound {
                return false;
            }
            j += 1;
        }
        i += 1;
    }
    true
}

/// Whether some list holds the index.
#[verifier::loop_isolation(false)]
fn lists_hold(lists: &Vec<Vec<usize>>, index: usize) -> (b: bool)
    ensures
        b == is_applied(list_views(lists@), index as nat),
{
    let ghost views = list_views(lists@);
    let mut i: usize = 0;
    while i < lists.len()
        invariant
            i <= lists@.len(),
            forall|x: int, y: int|
                0 <= x < i && 0 <= y < views[x].len() ==> (#[trigger] views[x][y]) != index,
        decreases lists@.len() - i,
    {
        let list = &lists[i];
        assert(views[i as int] == count_views(list@));
        let mut j: usize = 0;
        while j < list.len()
            invariant
                j <= list@.len(),
                forall|y: int| 0 <= y < j ==> (#[trigger] views[i as int][y]) != index,
            decreases list@.len() - j,
        {
            assert(views[i as int][j as int] == list@[j as int]);
            if list[j] == index {
                return true;
            }
            j += 1;
        }
        i += 1;
    }
    false
}

/// Whether the engine can take the network: whether making the graph of its
/// states and colors would not panic.
#[verifier::loop_isolation(false)]
pub fn engine_takes_network(network: &BooleanNetwork) -> (b: bool)
    ensures
        b == network_fits(*network),
{
    let variables = network_variable_names(network);
    let functions = network_function_list(network);
    let has_update = network_update_flags(network);
    let regulators = network_regulator_numbers(network);
    let applied = network_applied_function_list(network);
    let arguments = network_argument_list(network);
    let ends = network_regulation_list(network);
    let ghost vnames = names(variables@);
    let ghost fviews = function_views(functions@);
    let ghost eviews = end_views(ends@);
    let ghost lists = list_views(applied@);
    if has_update.len() != variables.len() || regulators.len() != variables.len() {
        return false;
    }
    // Too many rows: the engine says so itself.
    if rows_within(&functions, &has_update, &regulators).is_none() {
        return true;
    }
    let rows = made_rows(&functions, &has_update, &regulators, &applied);
    if variables.len() > SYMBOLIC_LIMIT || rows > SYMBOLIC_LIMIT - variables.len() {
        return false;
    }
    if !lists_below(&applied, functions.len()) || !lists_below(&arguments, variables.len()) {
        return false;
    }
    let mut e: usize = 0;
    while e < ends.len()
        invariant
            e <= ends@.len(),
            forall|k: int|
                0 <= k < e ==> (#[trigger] eviews[k]).0 < variables@.len() && eviews[k].1
                    < variables@.len(),
        decreases ends@.len() - e,
    {
        assert(eviews[e as int] == (ends@[e as int].0 as nat, ends@[e as int].1 as nat));
        if ends[e].0 >= variables.len() || ends[e].1 >= variables.len() {
            return false;
        }
        e += 1;
    }
    let mut f: usize = 0;
    while f < functions.len()
        invariant
            f <= functions@.len(),
            forall|j: int|
                0 <= j < f && is_applied(lists, j as nat) ==> name_is_usable(
                    (#[trigger] fviews[j]).0,
                ),
        decreases functions@.len() - f,
    {
        if lists_hold(&applied, f) && !name_fits(functions[f].0.as_str()) {
            assert(!name_is_usable(fviews[f as int].0));
            return false;
        }
        f += 1;
    }
    let mut i: usize = 0;
    while i < variables.len()
        invariant
            i <= variables@.len(),
            forall|j: int| 0 <= j < i ==> name_is_usable(#[trigger] vnames[j]),
            forall|j: int|
                0 <= j < i ==> !is_row_name(
                    #[trigger] vnames[j],
                    vnames,
                    fviews,
                    has_update@,
                    count_views(regulators@),
                    lists,
                ),
        decreases variables@.len() - i,
    {
        assert(vnames[i as int] == variables@[i as int]@);
        if !name_fits(variables[i].as_str()) {
            return false;
        }
        if names_a_row(
            variables[i].as_str(),
            &variables,
            &functions,
            &has_update,
            &regulators,
            &applied,
        ) {
            return false;
        }
        i += 1;
    }
    true
}

} // verus!
