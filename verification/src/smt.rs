//! The solver: its terms, function symbols, optimization queries and models,
//! and what each call into it is taken to do.
//!
//! The solver keeps one context for each thread, and everything here is made
//! in the context of the calling thread. What is said of the calls holds
//! where terms, symbols, queries and models of one context meet, as they do
//! as long as a thread keeps the context that it started with.

use crate::confidence::Confidence;
use crate::formula::{application, quantify, Formula, Soft};
use crate::text::c_safe;
use vstd::prelude::*;
use z3::ast::{Ast, Bool};
use z3::{FuncDecl, Model, Optimize};

verus! {

/// A Boolean term of the solver.
#[verifier::external_type_specification]
#[verifier::external_body]
pub struct ExBool(Bool);

/// A function symbol of the solver.
#[verifier::external_type_specification]
#[verifier::external_body]
pub struct ExFuncDecl(FuncDecl);

/// An optimization query of the solver.
#[verifier::external_type_specification]
#[verifier::external_body]
pub struct ExOptimize(Optimize);

/// A model that the solver found.
#[verifier::external_type_specification]
#[verifier::external_body]
pub struct ExModel(Model);

/// The formula that a term of the solver stands for.
pub uninterp spec fn term_formula(t: Bool) -> Formula;

/// The name of a function symbol.
pub uninterp spec fn symbol_name(f: FuncDecl) -> Seq<char>;

/// The number of arguments that a function symbol takes.
pub uninterp spec fn symbol_arity(f: FuncDecl) -> nat;

/// Whether a function symbol takes Boolean arguments only and gives a Boolean.
pub uninterp spec fn symbol_is_boolean(f: FuncDecl) -> bool;

/// The hard constraints of a query, in the order in which they were asserted.
pub uninterp spec fn hard_constraints(o: Optimize) -> Seq<Formula>;

/// The soft constraints of a query, in the order in which they were asserted.
pub uninterp spec fn soft_constraints(o: Optimize) -> Seq<Soft>;

/// The value that a model gives to the Boolean constant of that name, if it
/// gives it one.
pub uninterp spec fn model_constant(m: Model, name: Seq<char>) -> Option<bool>;

/// The value that a model gives to a formula as the model stands, if that is
/// `true` or `false`: none where the formula rests on a constant or a
/// function that the model says nothing of.
pub uninterp spec fn model_evaluation(m: Model, f: Formula) -> Option<bool>;

/// The formulas that a list of terms stands for.
pub open spec fn formulas(terms: Seq<Bool>) -> Seq<Formula> {
    Seq::new(terms.len(), |i: int| term_formula(terms[i]))
}

/// The names of a list of function symbols.
pub open spec fn symbol_names(symbols: Seq<FuncDecl>) -> Seq<Seq<char>> {
    Seq::new(symbols.len(), |i: int| symbol_name(symbols[i]))
}

/// The arities of a list of function symbols.
pub open spec fn symbol_arities(symbols: Seq<FuncDecl>) -> Seq<nat> {
    Seq::new(symbols.len(), |i: int| symbol_arity(symbols[i]))
}

/// The constants that a list of Boolean values stands for.
pub open spec fn constants(values: Seq<bool>) -> Seq<Formula> {
    Seq::new(values.len(), |i: int| Formula::Const(values[i]))
}

/// `z3::ast::Bool::new_const`: the Boolean constant of the given name. The
/// name must not be empty and must hold no zero byte: the call panics
/// otherwise.
#[verifier::external_body]
pub(crate) fn term_atom(name: &str) -> (t: Bool)
    requires
        name@.len() > 0,
        c_safe(name@),
    ensures
        term_formula(t) == Formula::Atom(name@),
{
    Bool::new_const(name)
}

/// `z3::ast::Bool::from_bool`: the term `true` or `false`.
#[verifier::external_body]
pub(crate) fn term_const(value: bool) -> (t: Bool)
    ensures
        term_formula(t) == Formula::Const(value),
{
    Bool::from_bool(value)
}

/// `Clone` of `z3::ast::Bool`: another handle of the same term.
#[verifier::external_body]
pub(crate) fn term_clone(a: &Bool) -> (t: Bool)
    ensures
        term_formula(t) == term_formula(*a),
{
    a.clone()
}

/// `z3::ast::Bool::not`: the negation of a term.
#[verifier::external_body]
pub(crate) fn term_not(a: &Bool) -> (t: Bool)
    ensures
        term_formula(t) == Formula::Not(Box::new(term_formula(*a))),
{
    a.not()
}

/// `z3::ast::Bool::and`, on two terms: their conjunction.
#[verifier::external_body]
pub(crate) fn term_and(a: &Bool, b: &Bool) -> (t: Bool)
    ensures
        term_formula(t) == Formula::And(Box::new(term_formula(*a)), Box::new(term_formula(*b))),
{
    Bool::and(&[a, b])
}

/// `z3::ast::Bool::or`, on two terms: their disjunction.
#[verifier::external_body]
pub(crate) fn term_or(a: &Bool, b: &Bool) -> (t: Bool)
    ensures
        term_formula(t) == Formula::Or(Box::new(term_formula(*a)), Box::new(term_formula(*b))),
{
    Bool::or(&[a, b])
}

/// `z3::ast::Bool::xor`: the exclusive disjunction of two terms.
#[verifier::external_body]
pub(crate) fn term_xor(a: &Bool, b: &Bool) -> (t: Bool)
    ensures
        term_formula(t) == Formula::Xor(Box::new(term_formula(*a)), Box::new(term_formula(*b))),
{
    a.xor(b)
}

/// `z3::ast::Bool::iff`: the equivalence of two terms.
#[verifier::external_body]
pub(crate) fn term_iff(a: &Bool, b: &Bool) -> (t: Bool)
    ensures
        term_formula(t) == Formula::Iff(Box::new(term_formula(*a)), Box::new(term_formula(*b))),
{
    a.iff(b)
}

/// `z3::ast::Bool::implies`: the implication from the first term to the
/// second.
#[verifier::external_body]
pub(crate) fn term_implies(a: &Bool, b: &Bool) -> (t: Bool)
    ensures
        term_formula(t) == Formula::Implies(
            Box::new(term_formula(*a)),
            Box::new(term_formula(*b)),
        ),
{
    a.implies(b)
}

/// `z3::ast::forall_const`, without patterns: the body under a universal
/// quantifier over the bound constants, and the body itself where nothing is
/// bound. What is bound must be constants, and at most `u32::MAX` of them.
#[verifier::external_body]
pub(crate) fn term_forall(bounds: &Vec<Bool>, body: &Bool) -> (t: Bool)
    requires
        bounds@.len() <= u32::MAX,
        forall|i: int| 0 <= i < bounds@.len() ==> term_formula(#[trigger] bounds@[i]) is Atom,
    ensures
        term_formula(t) == quantify(formulas(bounds@), term_formula(*body)),
{
    let bounds: Vec<&dyn Ast> = bounds.iter().map(|b| b as &dyn Ast).collect();
    z3::ast::forall_const(&bounds, &[], body)
}

/// `z3::FuncDecl::new`, on Boolean sorts: the function symbol of the given
/// name from `arity` Booleans to a Boolean. The name must not be empty and
/// must hold no zero byte, and the arity must fit in 32 bits: the call panics
/// otherwise.
#[verifier::external_body]
pub(crate) fn symbol_new(name: &str, arity: usize) -> (f: FuncDecl)
    requires
        name@.len() > 0,
        c_safe(name@),
        arity <= u32::MAX,
    ensures
        symbol_name(f) == name@,
        symbol_arity(f) == arity,
        symbol_is_boolean(f),
{
    let sort = z3::Sort::bool();
    let domain = vec![&sort; arity];
    FuncDecl::new(name, &domain, &sort)
}

/// `z3::FuncDecl::apply`, then `z3::ast::Dynamic::as_bool`: the symbol applied
/// to the arguments, or the constant of its name where it takes none; this is
/// a Boolean term where the symbol is a Boolean one. There must be as many
/// arguments as the symbol takes.
#[verifier::external_body]
pub(crate) fn symbol_apply(f: &FuncDecl, args: &Vec<Bool>) -> (t: Option<Bool>)
    requires
        args@.len() == symbol_arity(*f),
        symbol_is_boolean(*f),
    ensures
        t is Some,
        term_formula(t->Some_0) == application(symbol_name(*f), formulas(args@)),
{
    let args: Vec<&dyn Ast> = args.iter().map(|a| a as &dyn Ast).collect();
    f.apply(&args).as_bool()
}

/// `z3::Optimize::new`: a query without constraints.
#[verifier::external_body]
pub(crate) fn query_new() -> (o: Optimize)
    ensures
        hard_constraints(o) == Seq::<Formula>::empty(),
        soft_constraints(o) == Seq::<Soft>::empty(),
{
    Optimize::new()
}

/// `z3::Optimize::assert`: one more hard constraint.
#[verifier::external_body]
pub(crate) fn query_assert(o: &mut Optimize, t: &Bool)
    ensures
        hard_constraints(*final(o)) == hard_constraints(*old(o)).push(term_formula(*t)),
        soft_constraints(*final(o)) == soft_constraints(*old(o)),
{
    o.assert(t)
}

/// `z3::Optimize::assert_soft`, without a group: one more soft constraint,
/// whose weight is the fraction handed over as numerator and denominator.
#[verifier::external_body]
pub(crate) fn query_assert_soft(o: &mut Optimize, t: &Bool, weight: &Confidence)
    requires
        weight.wf(),
    ensures
        hard_constraints(*final(o)) == hard_constraints(*old(o)),
        soft_constraints(*final(o)) == soft_constraints(*old(o)).push(
            (Soft { formula: term_formula(*t), weight: *weight }),
        ),
{
    o.assert_soft(t, (weight.numerator(), weight.denominator()), None)
}

/// `z3::Model::get_const_interp`, then `z3::ast::Bool::as_bool`: the value
/// that the model gives to a Boolean constant.
#[verifier::external_body]
pub(crate) fn model_value(m: &Model, t: &Bool) -> (r: Option<bool>)
    requires
        term_formula(*t) is Atom,
    ensures
        r == model_constant(*m, term_formula(*t)->Atom_0),
{
    m.get_const_interp(t).and_then(|v| v.as_bool())
}

/// `z3::Model::eval` without model completion, then `z3::ast::Bool::as_bool`:
/// the value that the model gives to a term. Without completion the solver
/// assigns nothing that the model lacks, so the model is read only.
#[verifier::external_body]
pub(crate) fn model_eval(m: &Model, t: &Bool) -> (r: Option<bool>)
    ensures
        r == model_evaluation(*m, term_formula(*t)),
{
    m.eval(t, false).and_then(|v| v.as_bool())
}

} // verus!
