//! The meaning that a model gives to an uninterpreted function, read off as a
//! truth table.

use crate::formula::{application, Formula};
use crate::smt::{
    constants, formulas, model_eval, model_evaluation, symbol_apply, symbol_arity,
    symbol_is_boolean, symbol_name, term_const, term_formula,
};
use vstd::prelude::*;
use z3::ast::Bool;
use z3::{FuncDecl, Model};

verus! {

/// The number of rows of the truth table of a function of `arity` arguments:
/// two to the power of `arity`.
pub open spec fn table_size(arity: nat) -> nat
    decreases arity,
{
    if arity == 0 {
        1
    } else {
        2 * table_size((arity - 1) as nat)
    }
}

/// The arguments of row `row`: the binary digits of `row`, the lowest first,
/// so that the first argument changes fastest.
pub open spec fn input_bits(row: nat, arity: nat) -> Seq<bool>
    decreases arity,
{
    if arity == 0 {
        Seq::empty()
    } else {
        seq![row % 2 == 1] + input_bits(row / 2, (arity - 1) as nat)
    }
}

/// The value that the model gives to the function symbol in one row.
pub open spec fn table_entry(m: Model, name: Seq<char>, arity: nat, row: nat) -> Option<bool> {
    model_evaluation(m, application(name, constants(input_bits(row, arity))))
}

/// The truth table that the model gives to the function symbol, where it
/// gives a value to each row.
pub open spec fn truth_table(m: Model, name: Seq<char>, arity: nat) -> Seq<bool> {
    Seq::new(table_size(arity), |row: int| table_entry(m, name, arity, row as nat)->Some_0)
}

/// Whether the model gives a value to each row.
pub open spec fn table_defined(m: Model, name: Seq<char>, arity: nat) -> bool {
    forall|row: nat| row < table_size(arity) ==> (#[trigger] table_entry(m, name, arity, row)) is Some
}

/// A table of more arguments has at least as many rows.
pub proof fn lemma_table_size_grows(smaller: nat, larger: nat)
    requires
        smaller <= larger,
    ensures
        0 < table_size(smaller) <= table_size(larger),
    decreases larger,
{
    if smaller < larger {
        lemma_table_size_grows(smaller, (larger - 1) as nat);
    } else if smaller > 0 {
        lemma_table_size_grows((smaller - 1) as nat, (larger - 1) as nat);
    }
}

/// A row has as many arguments as the arity says.
pub proof fn lemma_input_bits_len(row: nat, arity: nat)
    ensures
        input_bits(row, arity).len() == arity,
    decreases arity,
{
    if arity > 0 {
        lemma_input_bits_len(row / 2, (arity - 1) as nat);
    }
}

/// The number of rows of the table, if it fits in `usize`.
pub fn table_rows(arity: usize) -> (r: Option<usize>)
    ensures
        r is Some <==> table_size(arity as nat) <= usize::MAX,
        r matches Some(n) ==> n == table_size(arity as nat),
{
    let mut size: usize = 1;
    let mut j: usize = 0;
    while j < arity
        invariant
            j <= arity,
            size == table_size(j as nat),
        decreases arity - j,
    {
        if size > usize::MAX / 2 {
            proof {
                lemma_table_size_grows((j + 1) as nat, arity as nat);
            }
            return None;
        }
        size = size * 2;
        j += 1;
    }
    Some(size)
}

/// The arguments of one row.
pub fn row_inputs(row: usize, arity: usize) -> (bits: Vec<bool>)
    ensures
        bits@ == input_bits(row as nat, arity as nat),
{
    let mut bits: Vec<bool> = Vec::new();
    let mut rest = row;
    let mut j: usize = 0;
    assert(bits@ + input_bits(rest as nat, arity as nat) =~= input_bits(row as nat, arity as nat));
    while j < arity
        invariant
            j <= arity,
            bits@ + input_bits(rest as nat, (arity - j) as nat) == input_bits(
                row as nat,
                arity as nat,
            ),
        decreases arity - j,
    {
        let ghost before = bits@;
        bits.push(rest % 2 == 1);
        proof {
            assert(bits@ + input_bits((rest / 2) as nat, (arity - j - 1) as nat) =~= before
                + input_bits(rest as nat, (arity - j) as nat));
        }
        rest = rest / 2;
        j += 1;
    }
    assert(bits@ + input_bits(rest as nat, 0) =~= bits@);
    bits
}

/// The truth table that a model gives to a Boolean function symbol: one
/// value for each row, or nothing where the table does not fit in memory or
/// the solver cannot evaluate a row.
pub fn function_table(model: &Model, symbol: &FuncDecl, arity: usize) -> (r: Option<Vec<bool>>)
    requires
        symbol_is_boolean(*symbol),
        symbol_arity(*symbol) == arity,
    ensures
        r is Some <==> table_size(arity as nat) <= usize::MAX && table_defined(
            *model,
            symbol_name(*symbol),
            arity as nat,
        ),
        r matches Some(table) ==> table@ == truth_table(
            *model,
            symbol_name(*symbol),
            arity as nat,
        ),
{
    let rows = match table_rows(arity) {
        Some(rows) => rows,
        None => {
            return None;
        },
    };
    let ghost name = symbol_name(*symbol);
    let mut table: Vec<bool> = Vec::new();
    let mut row: usize = 0;
    while row < rows
        invariant
            row <= rows,
            rows == table_size(arity as nat),
            name == symbol_name(*symbol),
            symbol_is_boolean(*symbol),
            symbol_arity(*symbol) == arity,
            table@.len() == row,
            forall|k: nat|
                k < row ==> (#[trigger] table_entry(*model, name, arity as nat, k)) == Some(
                    table@[k as int],
                ),
        decreases rows - row,
    {
        let inputs = row_inputs(row, arity);
        let mut args: Vec<Bool> = Vec::new();
        let mut j: usize = 0;
        proof {
            lemma_input_bits_len(row as nat, arity as nat);
        }
        while j < arity
            invariant
                j <= arity,
                inputs@.len() == arity,
                args@.len() == j,
                forall|i: int|
                    0 <= i < j ==> term_formula(#[trigger] args@[i]) == Formula::Const(inputs@[i]),
            decreases arity - j,
        {
            args.push(term_const(inputs[j]));
            j += 1;
        }
        assert(formulas(args@) =~= constants(inputs@));
        let term = symbol_apply(symbol, &args).unwrap();
        match model_eval(model, &term) {
            Some(value) => {
                table.push(value);
            },
            None => {
                assert(table_entry(*model, name, arity as nat, row as nat) is None);
                return None;
            },
        }
        row += 1;
    }
    assert(table@ =~= truth_table(*model, name, arity as nat));
    Some(table)
}

} // verus!
