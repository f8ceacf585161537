//! From update functions to terms of the solver.

use crate::formula::translate;
use crate::network::{BinaryOp, FnUpdate};
use crate::smt::{
    formulas, symbol_apply, symbol_arities, symbol_arity, symbol_is_boolean, symbol_name,
    symbol_names, symbol_new, term_and, term_clone, term_const, term_formula, term_iff,
    term_implies, term_not, term_or, term_xor,
};
use crate::text::{c_safe, is_c_safe};
use vstd::prelude::*;
use z3::ast::Bool;
use z3::FuncDecl;

verus! {

/// The Boolean function symbol of the solver with the given name and number
/// of arguments, as `fn_update_to_smt` takes it for an uninterpreted
/// function. Nothing comes back for the empty name, for a name that holds a
/// character of code zero and for an arity that does not fit in 32 bits,
/// which the solver cannot take.
pub fn boolean_symbol(name: &str, arity: usize) -> (r: Option<FuncDecl>)
    ensures
        r is Some <==> name@.len() > 0 && c_safe(name@) && arity <= u32::MAX,
        r matches Some(symbol) ==> symbol_name(symbol) == name@ && symbol_arity(symbol) == arity
            && symbol_is_boolean(symbol),
{
    if !name.is_empty() && is_c_safe(name) && arity <= u32::MAX as usize {
        Some(symbol_new(name, arity))
    } else {
        None
    }
}

/// Turns an update function into a term of the solver: each component stands
/// for the term that `variables` holds at its index, each uninterpreted
/// function for the symbol that `functions` holds at its index. Every
/// component and function that the update function names must be there, and
/// every function must be a Boolean symbol of the arity that it is applied
/// with.
pub fn fn_update_to_smt(update: &FnUpdate, variables: &Vec<Bool>, functions: &Vec<FuncDecl>) -> (t:
    Bool)
    requires
        update.valid(variables@.len(), symbol_arities(functions@)),
        forall|p: int| 0 <= p < functions@.len() ==> symbol_is_boolean(#[trigger] functions@[p]),
    ensures
        term_formula(t) == translate(*update, formulas(variables@), symbol_names(functions@)),
    decreases update,
{
    match update {
        FnUpdate::Const(value) => term_const(*value),
        FnUpdate::Var(id) => term_clone(&variables[*id]),
        FnUpdate::Param(id, args) => {
            let mut terms: Vec<Bool> = Vec::new();
            let mut i: usize = 0;
            while i < args.len()
                invariant
                    i <= args@.len(),
                    terms@.len() == i,
                    *update == FnUpdate::Param(*id, *args),
                    decreases_to!(*update => *args),
                    update.valid(variables@.len(), symbol_arities(functions@)),
                    forall|p: int|
                        0 <= p < functions@.len() ==> symbol_is_boolean(#[trigger] functions@[p]),
                    forall|j: int|
                        0 <= j < i ==> term_formula(#[trigger] terms@[j]) == translate(
                            args@[j],
                            formulas(variables@),
                            symbol_names(functions@),
                        ),
                decreases args@.len() - i,
            {
                assert(decreases_to!(*args => args[i as int]));
                assert(args@[i as int].valid(variables@.len(), symbol_arities(functions@)));
                let term = fn_update_to_smt(&args[i], variables, functions);
                terms.push(term);
                i += 1;
            }
            let applied = symbol_apply(&functions[*id], &terms);
            proof {
                let expected = translate(*update, formulas(variables@), symbol_names(functions@));
                assert(formulas(terms@).len() == args@.len());
                assert(symbol_names(functions@)[*id as int] == symbol_name(
                    functions@[*id as int],
                ));
                if args@.len() > 0 {
                    assert(formulas(terms@) =~= expected->Apply_1);
                }
            }
            applied.unwrap()
        },
        FnUpdate::Not(inner) => {
            let term = fn_update_to_smt(inner, variables, functions);
            term_not(&term)
        },
        FnUpdate::Binary(op, left, right) => {
            let l = fn_update_to_smt(left, variables, functions);
            let r = fn_update_to_smt(right, variables, functions);
            match op {
                BinaryOp::And => term_and(&l, &r),
                BinaryOp::Or => term_or(&l, &r),
                BinaryOp::Xor => term_xor(&l, &r),
                BinaryOp::Iff => term_iff(&l, &r),
                BinaryOp::Imp => term_implies(&l, &r),
            }
        },
    }
}

} // verus!
