//! The formulas that the inference hands to the solver, as mathematical
//! values, and the translation of an update function into one.

use crate::confidence::Confidence;
use crate::network::{BinaryOp, FnUpdate};
use vstd::prelude::*;

verus! {

/// A formula of the solver's logic.
pub ghost enum Formula {
    /// `true` or `false`.
    Const(bool),
    /// The Boolean constant of that name.
    Atom(Seq<char>),
    /// The function symbol of that name, applied to one argument or more.
    Apply(Seq<char>, Seq<Formula>),
    Not(Box<Formula>),
    And(Box<Formula>, Box<Formula>),
    Or(Box<Formula>, Box<Formula>),
    Xor(Box<Formula>, Box<Formula>),
    Iff(Box<Formula>, Box<Formula>),
    Implies(Box<Formula>, Box<Formula>),
    /// The body holds for every value of the bound constants.
    Forall(Seq<Formula>, Box<Formula>),
}

/// A soft constraint: a formula and what it costs to go against it.
pub ghost struct Soft {
    pub formula: Formula,
    pub weight: Confidence,
}

/// The formula that says that `atom` has the given `value`.
pub open spec fn literal(atom: Formula, value: bool) -> Formula {
    if value {
        atom
    } else {
        Formula::Not(Box::new(atom))
    }
}

/// The connective applied to two formulas.
pub open spec fn connect(op: BinaryOp, left: Formula, right: Formula) -> Formula {
    match op {
        BinaryOp::And => Formula::And(Box::new(left), Box::new(right)),
        BinaryOp::Or => Formula::Or(Box::new(left), Box::new(right)),
        BinaryOp::Xor => Formula::Xor(Box::new(left), Box::new(right)),
        BinaryOp::Iff => Formula::Iff(Box::new(left), Box::new(right)),
        BinaryOp::Imp => Formula::Implies(Box::new(left), Box::new(right)),
    }
}

/// The function symbol of the given name applied to the arguments; a symbol
/// without arguments is the constant of its name.
pub open spec fn application(name: Seq<char>, args: Seq<Formula>) -> Formula {
    if args.len() == 0 {
        Formula::Atom(name)
    } else {
        Formula::Apply(name, args)
    }
}

/// The body under a universal quantifier over `bounds`; with nothing to bind
/// it is the body itself.
pub open spec fn quantify(bounds: Seq<Formula>, body: Formula) -> Formula {
    if bounds.len() == 0 {
        body
    } else {
        Formula::Forall(bounds, Box::new(body))
    }
}

/// The update function as a formula: a component stands for the formula that
/// `variables` holds at its index, an uninterpreted function for the symbol
/// that `functions` names at its index.
pub open spec fn translate(
    update: FnUpdate,
    variables: Seq<Formula>,
    functions: Seq<Seq<char>>,
) -> Formula
    decreases update,
{
    match update {
        FnUpdate::Const(value) => Formula::Const(value),
        FnUpdate::Var(i) => variables[i as int],
        FnUpdate::Param(p, args) => application(
            functions[p as int],
            Seq::new(
                args@.len(),
                |i: int|
                    if 0 <= i < args@.len() {
                        translate(args@[i], variables, functions)
                    } else {
                        Formula::Const(false)
                    },
            ),
        ),
        FnUpdate::Not(inner) => Formula::Not(Box::new(translate(*inner, variables, functions))),
        FnUpdate::Binary(op, left, right) => connect(
            op,
            translate(*left, variables, functions),
            translate(*right, variables, functions),
        ),
    }
}

} // verus!
