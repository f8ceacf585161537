//! A state that is supposed to exist in a network: one Boolean constant of the
//! solver for each component.

use crate::formula::Formula;
use crate::network::NetworkModel;
use crate::smt::{formulas, model_constant, model_value, term_atom, term_clone, term_formula};
use crate::name_map::str_equal;
use crate::text::{c_safe, lemma_c_safe_concat, names};
use vstd::prelude::*;
use vstd::string::*;
use z3::ast::Bool;
use z3::Model;

verus! {

/// The name of the constant that stands for a component in a state.
pub open spec fn state_variable_name(state: Seq<char>, variable: Seq<char>) -> Seq<char> {
    "x_"@ + state + "_"@ + variable
}

/// Whether `longer` begins with `shorter` and an underscore.
pub open spec fn extends(shorter: Seq<char>, longer: Seq<char>) -> bool {
    &&& shorter.len() < longer.len()
    &&& longer.subrange(0, shorter.len() as int) == shorter
    &&& longer[shorter.len() as int] == '_'
}

/// Whether two names of states are so alike that constants of the two
/// states could have one name: the names are the same, or one begins with
/// the other and an underscore.
pub open spec fn related(a: Seq<char>, b: Seq<char>) -> bool {
    a == b || extends(a, b) || extends(b, a)
}

/// Two states whose names are not alike share no constant, whatever their
/// components are called.
pub proof fn lemma_unrelated_share_no_constant(
    a: Seq<char>,
    b: Seq<char>,
    v: Seq<char>,
    w: Seq<char>,
)
    requires
        !related(a, b),
    ensures
        state_variable_name(a, v) != state_variable_name(b, w),
{
    reveal_strlit("x_");
    reveal_strlit("_");
    let x = state_variable_name(a, v);
    let y = state_variable_name(b, w);
    if x == y {
        assert forall|k: int| 0 <= k < a.len() implies x[2 + k] == a[k] by {}
        assert forall|k: int| 0 <= k < b.len() implies y[2 + k] == b[k] by {}
        assert(x[2 + a.len() as int] == '_');
        assert(y[2 + b.len() as int] == '_');
        if a.len() == b.len() {
            assert forall|k: int| 0 <= k < a.len() implies a[k] == b[k] by {
                assert(x[2 + k] == a[k]);
                assert(y[2 + k] == b[k]);
            }
            assert(a =~= b);
        } else if a.len() < b.len() {
            assert forall|k: int| 0 <= k < a.len() implies b.subrange(0, a.len() as int)[k]
                == a[k] by {
                assert(x[2 + k] == a[k]);
                assert(y[2 + k] == b[k]);
            }
            assert(b.subrange(0, a.len() as int) =~= a);
            assert(y[2 + a.len() as int] == b[a.len() as int]);
            assert(extends(a, b));
        } else {
            assert forall|k: int| 0 <= k < b.len() implies a.subrange(0, b.len() as int)[k]
                == b[k] by {
                assert(x[2 + k] == a[k]);
                assert(y[2 + k] == b[k]);
            }
            assert(a.subrange(0, b.len() as int) =~= b);
            assert(x[2 + b.len() as int] == a[b.len() as int]);
            assert(extends(b, a));
        }
    }
}

/// Two components of different names have different constants in a state.
pub proof fn lemma_components_share_no_constant(state: Seq<char>, v: Seq<char>, w: Seq<char>)
    requires
        v != w,
    ensures
        state_variable_name(state, v) != state_variable_name(state, w),
{
    reveal_strlit("x_");
    reveal_strlit("_");
    let x = state_variable_name(state, v);
    let y = state_variable_name(state, w);
    if x == y {
        assert(x.len() == 3 + state.len() + v.len());
        assert(y.len() == 3 + state.len() + w.len());
        assert(v.len() == w.len());
        assert forall|k: int| 0 <= k < v.len() implies v[k] == w[k] by {
            assert(x[3 + state.len() + k] == v[k]);
            assert(y[3 + state.len() + k] == w[k]);
        }
        assert(v =~= w);
    }
}

/// Whether two names of states are alike.
pub fn names_related(a: &str, b: &str) -> (r: bool)
    ensures
        r == related(a@, b@),
{
    let la = a.unicode_len();
    let lb = b.unicode_len();
    let least = if la < lb {
        la
    } else {
        lb
    };
    let mut i: usize = 0;
    while i < least
        invariant
            i <= least,
            least <= la,
            least <= lb,
            la == a@.len(),
            lb == b@.len(),
            forall|k: int| 0 <= k < i ==> a@[k] == b@[k],
        decreases least - i,
    {
        if a.get_char(i) != b.get_char(i) {
            proof {
                if la <= lb {
                    assert(b@.subrange(0, la as int)[i as int] == b@[i as int]);
                }
                if lb <= la {
                    assert(a@.subrange(0, lb as int)[i as int] == a@[i as int]);
                }
            }
            return false;
        }
        i += 1;
    }
    if la == lb {
        assert(a@ =~= b@);
        true
    } else if la < lb {
        assert(b@.subrange(0, la as int) =~= a@);
        b.get_char(la) == '_'
    } else {
        assert(a@.subrange(0, lb as int) =~= b@);
        a.get_char(lb) == '_'
    }
}

/// Whether a constant of a state named `a` has the name of a constant of a
/// state named `b`, in a network of the given components.
pub open spec fn share_constant(a: Seq<char>, b: Seq<char>, variables: Seq<Seq<char>>) -> bool {
    exists|i: int, j: int|
        0 <= i < variables.len() && 0 <= j < variables.len() && #[trigger] state_variable_name(
            a,
            variables[i],
        ) == #[trigger] state_variable_name(b, variables[j])
}

/// Where a constant of one state has the name of a constant of another, one
/// of the other has the name of one of the first.
pub proof fn lemma_share_constant_symmetric(a: Seq<char>, b: Seq<char>, variables: Seq<Seq<char>>)
    requires
        share_constant(a, b, variables),
    ensures
        share_constant(b, a, variables),
{
    let (i, j) = choose|i: int, j: int|
        0 <= i < variables.len() && 0 <= j < variables.len() && #[trigger] state_variable_name(
            a,
            variables[i],
        ) == #[trigger] state_variable_name(b, variables[j]);
    assert(state_variable_name(b, variables[j]) == state_variable_name(a, variables[i]));
}

/// The name of the constant that stands for a component in a state.
pub fn constant_name(state: &str, variable: &str) -> (full: String)
    ensures
        full@ == state_variable_name(state@, variable@),
{
    let mut full = String::from_str("x_");
    full.append(state);
    full.append("_");
    full.append(variable);
    full
}

/// Whether a constant of a state named `a` has the name of a constant of a
/// state named `b`, in a network of the given components.
#[verifier::loop_isolation(false)]
pub fn constants_coincide(a: &str, b: &str, variables: &Vec<String>) -> (r: bool)
    ensures
        r == share_constant(a@, b@, names(variables@)),
{
    let ghost all = names(variables@);
    if !names_related(a, b) {
        proof {
            assert forall|i: int, j: int| 0 <= i < all.len() && 0 <= j < all.len() implies
                #[trigger] state_variable_name(a@, all[i]) != #[trigger] state_variable_name(
                b@,
                all[j],
            ) by {
                lemma_unrelated_share_no_constant(a@, b@, all[i], all[j]);
            }
        }
        return false;
    }
    let mut i: usize = 0;
    while i < variables.len()
        invariant
            i <= variables@.len(),
            forall|x: int, y: int|
                0 <= x < i && 0 <= y < all.len() ==> #[trigger] state_variable_name(a@, all[x])
                    != #[trigger] state_variable_name(b@, all[y]),
        decreases variables@.len() - i,
    {
        let left = constant_name(a, variables[i].as_str());
        let mut j: usize = 0;
        while j < variables.len()
            invariant
                j <= variables@.len(),
                forall|y: int|
                    0 <= y < j ==> left@ != #[trigger] state_variable_name(b@, all[y]),
            decreases variables@.len() - j,
        {
            let right = constant_name(b, variables[j].as_str());
            if str_equal(left.as_str(), right.as_str()) {
                assert(state_variable_name(a@, all[i as int]) == state_variable_name(
                    b@,
                    all[j as int],
                ));
                return true;
            }
            j += 1;
        }
        i += 1;
    }
    false
}

/// The constants of a state of the given name, one for each of `variables`.
pub open spec fn state_atoms(state: Seq<char>, variables: Seq<Seq<char>>) -> Seq<Formula> {
    Seq::new(variables.len(), |i: int| Formula::Atom(state_variable_name(state, variables[i])))
}

/// The values that a model gives to the constants of a state, where it gives
/// one to each.
pub open spec fn state_values(m: Model, atoms: Seq<Formula>) -> Seq<bool> {
    Seq::new(atoms.len(), |i: int| model_constant(m, atoms[i]->Atom_0)->Some_0)
}

/// Whether a model gives a value to each constant of a state.
pub open spec fn state_valued(m: Model, atoms: Seq<Formula>) -> bool {
    forall|i: int| 0 <= i < atoms.len() ==> model_constant(m, (#[trigger] atoms[i])->Atom_0) is Some
}

/// The name of a constant of a state can be handed to the solver where the
/// names of the state and of the component can.
pub proof fn lemma_state_variable_name_safe(state: Seq<char>, variable: Seq<char>)
    requires
        c_safe(state),
        c_safe(variable),
    ensures
        c_safe(state_variable_name(state, variable)),
{
    reveal_strlit("x_");
    reveal_strlit("_");
    assert(c_safe("x_"@));
    assert(c_safe("_"@));
    lemma_c_safe_concat("x_"@, state);
    lemma_c_safe_concat("x_"@ + state, "_"@);
    lemma_c_safe_concat("x_"@ + state + "_"@, variable);
}

/// The declaration of "some state" of a network: a Boolean constant of the
/// solver for every component.
pub struct SmtState {
    name: String,
    variables: Vec<Bool>,
}

impl View for SmtState {
    type V = Seq<Formula>;

    /// The formulas that stand for the components, each at its index.
    closed spec fn view(&self) -> Seq<Formula> {
        formulas(self.variables@)
    }
}

impl SmtState {
    /// The name that the state was declared with.
    pub closed spec fn name_view(&self) -> Seq<char> {
        self.name@
    }

    /// Every component stands as a constant of the solver.
    pub open spec fn wf(&self) -> bool {
        forall|i: int| 0 <= i < self@.len() ==> (#[trigger] self@[i]) is Atom
    }

    /// The state holds the constants that its name and `variables` give.
    pub open spec fn declares(&self, variables: Seq<Seq<char>>) -> bool {
        self@ == state_atoms(self.name_view(), variables)
    }

    /// A new state of the given network. The constant of a component is named
    /// `x_{state name}_{component name}`.
    pub fn new(name: &str, network: &NetworkModel) -> (s: SmtState)
        requires
            c_safe(name@),
            network.wf(),
        ensures
            s.name_view() == name@,
            s.declares(network.variables()),
            s.wf(),
    {
        let mut variables: Vec<Bool> = Vec::new();
        let mut i: usize = 0;
        while i < network.num_vars()
            invariant
                i <= network.variables().len(),
                c_safe(name@),
                network.wf(),
                variables@.len() == i,
                forall|j: int|
                    0 <= j < i ==> term_formula(#[trigger] variables@[j]) == Formula::Atom(
                        state_variable_name(name@, network.variables()[j]),
                    ),
            decreases network.variables().len() - i,
        {
            let full = constant_name(name, network.get_variable_name(i).as_str());
            proof {
                lemma_state_variable_name_safe(name@, network.variables()[i as int]);
                reveal_strlit("x_");
                assert(full@.len() >= 2);
            }
            variables.push(term_atom(full.as_str()));
            i += 1;
        }
        let s = SmtState { name: String::from_str(name), variables };
        assert(s@ =~= state_atoms(name@, network.variables()));
        s
    }

    /// The name with which the state is declared.
    pub fn name(&self) -> (n: &str)
        ensures
            n@ == self.name_view(),
    {
        self.name.as_str()
    }

    /// The number of components.
    pub fn len(&self) -> (n: usize)
        ensures
            n == self@.len(),
    {
        self.variables.len()
    }

    /// A copy of the terms that stand for the components, each at its index.
    pub fn make_smt_vars(&self) -> (r: Vec<Bool>)
        ensures
            formulas(r@) == self@,
    {
        let mut r: Vec<Bool> = Vec::new();
        let mut i: usize = 0;
        while i < self.variables.len()
            invariant
                i <= self.variables@.len(),
                r@.len() == i,
                forall|j: int|
                    0 <= j < i ==> term_formula(#[trigger] r@[j]) == term_formula(
                        self.variables@[j],
                    ),
            decreases self.variables@.len() - i,
        {
            r.push(term_clone(&self.variables[i]));
            i += 1;
        }
        assert(formulas(r@) =~= self@);
        r
    }

    /// The terms that stand for the components, in the order of the
    /// components.
    pub fn iter_smt_vars(&self) -> (r: Vec<Bool>)
        ensures
            formulas(r@) == self@,
    {
        self.make_smt_vars()
    }

    /// A copy of the terms, each with the index of its component.
    pub fn make_smt_var_map(&self) -> (r: Vec<(usize, Bool)>)
        ensures
            r@.len() == self@.len(),
            forall|i: int|
                0 <= i < r@.len() ==> (#[trigger] r@[i]).0 == i && term_formula(r@[i].1)
                    == self@[i],
    {
        let mut r: Vec<(usize, Bool)> = Vec::new();
        let mut i: usize = 0;
        while i < self.variables.len()
            invariant
                i <= self.variables@.len(),
                r@.len() == i,
                forall|j: int|
                    0 <= j < i ==> (#[trigger] r@[j]).0 == j && term_formula(r@[j].1)
                        == term_formula(self.variables@[j]),
            decreases self.variables@.len() - i,
        {
            r.push((i, term_clone(&self.variables[i])));
            i += 1;
        }
        r
    }

    /// The pairs of component and term, in the order of the components.
    pub fn iter_smt_var_map(&self) -> (r: Vec<(usize, Bool)>)
        ensures
            r@.len() == self@.len(),
            forall|i: int|
                0 <= i < r@.len() ==> (#[trigger] r@[i]).0 == i && term_formula(r@[i].1)
                    == self@[i],
    {
        self.make_smt_var_map()
    }

    /// The term that stands for the component `var`, which must be one of the
    /// state's.
    pub fn get_smt_var(&self, var: usize) -> (t: Bool)
        requires
            var < self@.len(),
        ensures
            term_formula(t) == self@[var as int],
    {
        term_clone(&self.variables[var])
    }

    /// The value of each component in a model, where the model gives one to
    /// every constant of the state, and nothing otherwise.
    pub fn try_extract_state(&self, model: &Model) -> (r: Option<Vec<bool>>)
        requires
            self.wf(),
        ensures
            r is Some <==> state_valued(*model, self@),
            r matches Some(values) ==> values@ == state_values(*model, self@),
    {
        let mut values: Vec<bool> = Vec::new();
        let mut i: usize = 0;
        while i < self.variables.len()
            invariant
                i <= self.variables@.len(),
                values@.len() == i,
                forall|j: int| 0 <= j < self@.len() ==> (#[trigger] self@[j]) is Atom,
                forall|j: int|
                    0 <= j < i ==> model_constant(*model, (#[trigger] self@[j])->Atom_0) == Some(
                        values@[j],
                    ),
            decreases self.variables@.len() - i,
        {
            assert(self@[i as int] is Atom);
            match model_value(model, &self.variables[i]) {
                Some(value) => {
                    values.push(value);
                },
                None => {
                    return None;
                },
            }
            i += 1;
        }
        assert(values@ =~= state_values(*model, self@));
        Some(values)
    }

    /// The value of each component in a model of the solver. The model must
    /// give a value to every constant of the state.
    pub fn extract_state(&self, model: &Model) -> (values: Vec<bool>)
        requires
            self.wf(),
            state_valued(*model, self@),
        ensures
            values@ == state_values(*model, self@),
    {
        self.try_extract_state(model).unwrap()
    }

    /// The value of each component in a model of the solver, with the index of
    /// the component. The model must give a value to every constant of the
    /// state.
    pub fn extract_state_map(&self, model: &Model) -> (r: Vec<(usize, bool)>)
        requires
            self.wf(),
            state_valued(*model, self@),
        ensures
            r@.len() == self@.len(),
            forall|i: int|
                0 <= i < r@.len() ==> (#[trigger] r@[i]) == (
                    i as usize,
                    state_values(*model, self@)[i],
                ),
    {
        let values = self.extract_state(model);
        let mut r: Vec<(usize, bool)> = Vec::new();
        let mut i: usize = 0;
        while i < values.len()
            invariant
                i <= values@.len(),
                r@.len() == i,
                forall|j: int| 0 <= j < i ==> (#[trigger] r@[j]) == (j as usize, values@[j]),
            decreases values@.len() - i,
        {
            r.push((i, values[i]));
            i += 1;
        }
        r
    }
}

impl Clone for SmtState {
    /// A state of the same name with handles of the same terms.
    fn clone(&self) -> (r: Self)
        ensures
            r@ == self@,
            r.name_view() == self.name_view(),
    {
        SmtState { name: self.name.clone(), variables: self.make_smt_vars() }
    }
}

} // verus!
