//! A truth table as a decision diagram.

use crate::truth_table::{input_bits, lemma_input_bits_len, row_inputs, table_size};
use biodivine_lib_bdd::{Bdd, BddValuation, BddVariableSet};
use vstd::prelude::*;

verus! {

/// A decision diagram.
#[verifier::external_type_specification]
#[verifier::external_body]
pub struct ExBdd(Bdd);

/// The variables that decision diagrams are over.
#[verifier::external_type_specification]
#[verifier::external_body]
pub struct ExBddVariableSet(BddVariableSet);

/// The valuations of its variables that a decision diagram is true on.
pub uninterp spec fn bdd_models(diagram: Bdd) -> Set<Seq<bool>>;

/// The number of variables of a set.
pub uninterp spec fn bdd_variable_count(variables: BddVariableSet) -> nat;

/// The valuations that a list of rows holds.
pub open spec fn listed(rows: Seq<Vec<bool>>) -> Set<Seq<bool>> {
    Set::new(|v: Seq<bool>| exists|i: int| 0 <= i < rows.len() && (#[trigger] rows[i])@ == v)
}

/// The arguments at which a truth table of the given arity is true.
pub open spec fn true_rows(arity: nat, table: Seq<bool>) -> Set<Seq<bool>> {
    Set::new(
        |v: Seq<bool>|
            exists|row: nat| row < table.len() && table[row as int] && #[trigger] input_bits(
                row,
                arity,
            ) == v,
    )
}

/// `BddVariableSet::new_anonymous`: a set of `count` variables, named
/// `x_0`, `x_1` and so on. The call panics on 65534 variables or more.
#[verifier::external_body]
pub(crate) fn anonymous_variables(count: u16) -> (variables: BddVariableSet)
    requires
        count < 65534,
    ensures
        bdd_variable_count(variables) == count,
{
    BddVariableSet::new_anonymous(count)
}

/// `BddVariableSet::mk_dnf_valuation`: the diagram that is true on exactly
/// the listed valuations, each of which must give every variable a value.
#[verifier::external_body]
pub(crate) fn disjunction_of(variables: &BddVariableSet, rows: &Vec<Vec<bool>>) -> (diagram: Bdd)
    requires
        forall|i: int|
            0 <= i < rows@.len() ==> (#[trigger] rows@[i])@.len() == bdd_variable_count(*variables),
    ensures
        bdd_models(diagram) == listed(rows@),
{
    let rows: Vec<BddValuation> = rows.iter().map(|row| BddValuation::new(row.clone())).collect();
    variables.mk_dnf_valuation(&rows)
}

/// The decision diagram of a truth table over anonymous variables, one for
/// each argument: it is true on exactly the arguments at which the table is.
/// Nothing comes back for 65534 arguments or more.
pub fn table_diagram(arity: usize, table: &Vec<bool>) -> (r: Option<(BddVariableSet, Bdd)>)
    requires
        table@.len() == table_size(arity as nat),
    ensures
        r is Some <==> arity < 65534,
        r matches Some(pair) ==> bdd_variable_count(pair.0) == arity && bdd_models(pair.1)
            == true_rows(arity as nat, table@),
{
    if arity >= 65534 {
        return None;
    }
    let variables = anonymous_variables(arity as u16);
    // The table as a disjunction: one clause for each row that is true.
    let mut rows: Vec<Vec<bool>> = Vec::new();
    let mut row: usize = 0;
    while row < table.len()
        invariant
            row <= table@.len(),
            bdd_variable_count(variables) == arity,
            forall|i: int| 0 <= i < rows@.len() ==> (#[trigger] rows@[i])@.len() == arity,
            forall|v: Seq<bool>|
                listed(rows@).contains(v) <==> exists|k: nat|
                    k < row && table@[k as int] && #[trigger] input_bits(k, arity as nat) == v,
        decreases table@.len() - row,
    {
        if table[row] {
            let inputs = row_inputs(row, arity);
            let ghost before = rows@;
            proof {
                lemma_input_bits_len(row as nat, arity as nat);
            }
            rows.push(inputs);
            proof {
                assert forall|v: Seq<bool>| listed(rows@).contains(v) <==> exists|k: nat|
                    k < row + 1 && table@[k as int] && #[trigger] input_bits(k, arity as nat)
                        == v by {
                    if listed(rows@).contains(v) {
                        let i = choose|i: int| 0 <= i < rows@.len() && (#[trigger] rows@[i])@ == v;
                        if i < before.len() {
                            assert(before[i]@ == v);
                            assert(listed(before).contains(v));
                            let k = choose|k: nat|
                                k < row && table@[k as int] && #[trigger] input_bits(
                                    k,
                                    arity as nat,
                                ) == v;
                            assert(k < row + 1);
                        } else {
                            assert(input_bits(row as nat, arity as nat) == v);
                        }
                    }
                    if exists|k: nat|
                        k < row + 1 && table@[k as int] && #[trigger] input_bits(k, arity as nat)
                            == v {
                        let k = choose|k: nat|
                            k < row + 1 && table@[k as int] && #[trigger] input_bits(
                                k,
                                arity as nat,
                            ) == v;
                        if k < row {
                            assert(listed(before).contains(v));
                            let i = choose|i: int|
                                0 <= i < before.len() && (#[trigger] before[i])@ == v;
                            assert(rows@[i]@ == v);
                        } else {
                            assert(rows@[rows@.len() - 1]@ == v);
                        }
                    }
                }
            }
        } else {
            proof {
                assert forall|v: Seq<bool>| listed(rows@).contains(v) <==> exists|k: nat|
                    k < row + 1 && table@[k as int] && #[trigger] input_bits(k, arity as nat)
                        == v by {
                    if listed(rows@).contains(v) {
                        let k = choose|k: nat|
                            k < row && table@[k as int] && #[trigger] input_bits(k, arity as nat)
                                == v;
                        assert(k < row + 1);
                    }
                }
            }
        }
        row += 1;
    }
    let diagram = disjunction_of(&variables, &rows);
    assert(bdd_models(diagram) =~= true_rows(arity as nat, table@));
    Some((variables, diagram))
}

} // verus!
