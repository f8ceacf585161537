//! The network as the inference reads it: its components, the regulations
//! between them, its uninterpreted functions and the update function of each
//! component.

use crate::name_map::str_equal;
use crate::text::{c_safe, distinct_names, is_c_safe, lemma_position_of, names, position_of};
use vstd::prelude::*;

verus! {

/// The monotonous effect that a regulation may have.
#[derive(Clone, Copy, Debug, PartialEq, Eq, Structural)]
pub enum Monotonicity {
    Activation,
    Inhibition,
}

/// An interaction between two components: `regulator` acts on `target`.
#[derive(Clone, Copy, Debug)]
pub struct Regulation {
    pub regulator: usize,
    pub target: usize,
    pub observable: bool,
    pub monotonicity: Option<Monotonicity>,
}

/// An unknown Boolean function with a name and a number of arguments.
#[derive(Clone, Debug)]
pub struct UninterpretedFunction {
    pub name: String,
    pub arity: usize,
}

/// The binary connectives of an update function.
#[derive(Clone, Copy, Debug, PartialEq, Eq, Structural)]
pub enum BinaryOp {
    And,
    Or,
    Xor,
    Iff,
    Imp,
}

/// An update function: a Boolean expression over the components and the
/// uninterpreted functions of a network, each named by its index.
#[derive(Debug)]
pub enum FnUpdate {
    /// A constant.
    Const(bool),
    /// The value of a component.
    Var(usize),
    /// An uninterpreted function applied to arguments.
    Param(usize, Vec<FnUpdate>),
    /// Negation.
    Not(Box<FnUpdate>),
    /// A binary connective.
    Binary(BinaryOp, Box<FnUpdate>, Box<FnUpdate>),
}

impl FnUpdate {
    /// Every component that the expression names is below `num_vars`, and
    /// every function that it applies is one of `arities` and gets as many
    /// arguments as its arity says.
    pub open spec fn valid(self, num_vars: nat, arities: Seq<nat>) -> bool
        decreases self,
    {
        match self {
            FnUpdate::Const(_) => true,
            FnUpdate::Var(i) => i < num_vars,
            FnUpdate::Param(p, args) => {
                &&& p < arities.len()
                &&& args@.len() == arities[p as int]
                &&& forall|i: int|
                    0 <= i < args@.len() ==> (#[trigger] args@[i]).valid(num_vars, arities)
            },
            FnUpdate::Not(inner) => inner.valid(num_vars, arities),
            FnUpdate::Binary(_, left, right) => {
                &&& left.valid(num_vars, arities)
                &&& right.valid(num_vars, arities)
            },
        }
    }
}

/// The arities of a list of uninterpreted functions.
pub open spec fn arities_of(parameters: Seq<UninterpretedFunction>) -> Seq<nat> {
    Seq::new(parameters.len(), |i: int| parameters[i].arity as nat)
}

/// The names of a list of uninterpreted functions.
pub open spec fn names_of(parameters: Seq<UninterpretedFunction>) -> Seq<Seq<char>> {
    Seq::new(parameters.len(), |i: int| parameters[i].name@)
}

/// How many of the entries hold no update function.
pub open spec fn count_open(s: Seq<Option<FnUpdate>>) -> nat
    decreases s.len(),
{
    if s.len() == 0 {
        0
    } else if s.last() is None {
        count_open(s.drop_last()) + 1
    } else {
        count_open(s.drop_last())
    }
}

/// Where no entry is open, every entry holds an update function.
pub proof fn lemma_none_open(s: Seq<Option<FnUpdate>>)
    requires
        count_open(s) == 0,
    ensures
        forall|i: int| 0 <= i < s.len() ==> (#[trigger] s[i]) is Some,
    decreases s.len(),
{
    if s.len() > 0 {
        lemma_none_open(s.drop_last());
        assert forall|i: int| 0 <= i < s.len() implies (#[trigger] s[i]) is Some by {
            if i < s.len() - 1 {
                assert(s[i] == s.drop_last()[i]);
            }
        }
    }
}

/// Whether the four parts make a network: every component has an entry for
/// its update function, no two components and no two functions have the same
/// name, every name can be handed to the solver, no function has the empty
/// name, the number of components and every arity fit in 32 bits, every regulation joins two components, and every
/// update function is valid for the components and functions at hand.
pub open spec fn parts_valid(
    variables: Seq<Seq<char>>,
    regulations: Seq<Regulation>,
    parameter_names: Seq<Seq<char>>,
    arities: Seq<nat>,
    update_functions: Seq<Option<FnUpdate>>,
) -> bool {
    &&& update_functions.len() == variables.len()
    &&& variables.len() <= u32::MAX
    &&& parameter_names.len() == arities.len()
    &&& distinct_names(variables)
    &&& distinct_names(parameter_names)
    &&& forall|i: int| 0 <= i < variables.len() ==> c_safe(#[trigger] variables[i])
    &&& forall|p: int|
        0 <= p < parameter_names.len() ==> c_safe(#[trigger] parameter_names[p])
            && parameter_names[p].len() > 0
    &&& forall|p: int| 0 <= p < arities.len() ==> #[trigger] arities[p] <= u32::MAX
    &&& forall|r: int|
        0 <= r < regulations.len() ==> (#[trigger] regulations[r]).regulator < variables.len()
            && regulations[r].target < variables.len()
    &&& forall|i: int|
        0 <= i < update_functions.len() ==> ((#[trigger] update_functions[i]) matches Some(f)
            ==> f.valid(variables.len(), arities))
}

/// Whether `update` is valid for `num_vars` components and the given
/// functions.
pub fn update_is_valid(
    update: &FnUpdate,
    num_vars: usize,
    parameters: &Vec<UninterpretedFunction>,
) -> (b: bool)
    ensures
        b == update.valid(num_vars as nat, arities_of(parameters@)),
    decreases update,
{
    match update {
        FnUpdate::Const(_) => true,
        FnUpdate::Var(i) => *i < num_vars,
        FnUpdate::Param(p, args) => {
            if *p >= parameters.len() {
                return false;
            }
            if args.len() != parameters[*p].arity {
                return false;
            }
            let mut i: usize = 0;
            while i < args.len()
                invariant
                    i <= args@.len(),
                    *update == FnUpdate::Param(*p, *args),
                    decreases_to!(*update => *args),
                    *p < parameters@.len(),
                    args@.len() == parameters@[*p as int].arity,
                    forall|j: int|
                        0 <= j < i ==> (#[trigger] args@[j]).valid(
                            num_vars as nat,
                            arities_of(parameters@),
                        ),
                decreases args@.len() - i,
            {
                assert(decreases_to!(*args => args[i as int]));
                if !update_is_valid(&args[i], num_vars, parameters) {
                    return false;
                }
                i += 1;
            }
            true
        },
        FnUpdate::Not(inner) => update_is_valid(inner, num_vars, parameters),
        FnUpdate::Binary(_, left, right) => {
            update_is_valid(left, num_vars, parameters) && update_is_valid(
                right,
                num_vars,
                parameters,
            )
        },
    }
}

/// The first index at which the list holds the name.
pub fn find_name(all: &Vec<String>, name: &str) -> (r: Option<usize>)
    ensures
        r is Some <==> position_of(names(all@), name@) is Some,
        r matches Some(i) ==> position_of(names(all@), name@) == Some(i as int) && i < all@.len(),
{
    let mut i: usize = 0;
    while i < all.len()
        invariant
            i <= all@.len(),
            forall|j: int| 0 <= j < i ==> names(all@)[j] != name@,
        decreases all@.len() - i,
    {
        if str_equal(all[i].as_str(), name) {
            proof {
                assert(names(all@)[i as int] == name@);
                lemma_position_of(names(all@), name@);
            }
            return Some(i);
        }
        i += 1;
    }
    proof {
        lemma_position_of(names(all@), name@);
    }
    None
}

/// A Boolean network with some update functions left open: the uninterpreted
/// functions stand for them.
#[derive(Debug)]
pub struct NetworkModel {
    variables: Vec<String>,
    regulations: Vec<Regulation>,
    parameters: Vec<UninterpretedFunction>,
    update_functions: Vec<Option<FnUpdate>>,
}

impl NetworkModel {
    /// The names of the components, each at its index.
    pub closed spec fn variables(&self) -> Seq<Seq<char>> {
        names(self.variables@)
    }

    /// The regulations, in the order in which the network lists them.
    pub closed spec fn regulations(&self) -> Seq<Regulation> {
        self.regulations@
    }

    /// The names of the uninterpreted functions, each at its index.
    pub closed spec fn parameter_names(&self) -> Seq<Seq<char>> {
        names_of(self.parameters@)
    }

    /// The arities of the uninterpreted functions, each at its index.
    pub closed spec fn arities(&self) -> Seq<nat> {
        arities_of(self.parameters@)
    }

    /// The update function of each component, where it has one.
    pub closed spec fn update_functions(&self) -> Seq<Option<FnUpdate>> {
        self.update_functions@
    }

    /// The parts make a network.
    pub open spec fn wf(&self) -> bool {
        parts_valid(
            self.variables(),
            self.regulations(),
            self.parameter_names(),
            self.arities(),
            self.update_functions(),
        )
    }

    /// The number of components without an update function: each stands for
    /// an unnamed uninterpreted function.
    pub open spec fn implicit_parameters(&self) -> nat {
        count_open(self.update_functions())
    }

    /// The network made of the four parts, if they make one.
    pub fn new(
        variables: Vec<String>,
        regulations: Vec<Regulation>,
        parameters: Vec<UninterpretedFunction>,
        update_functions: Vec<Option<FnUpdate>>,
    ) -> (r: Option<NetworkModel>)
        ensures
            r is Some <==> parts_valid(
                names(variables@),
                regulations@,
                names_of(parameters@),
                arities_of(parameters@),
                update_functions@,
            ),
            r matches Some(n) ==> {
                &&& n.wf()
                &&& n.variables() == names(variables@)
                &&& n.regulations() == regulations@
                &&& n.parameter_names() == names_of(parameters@)
                &&& n.arities() == arities_of(parameters@)
                &&& n.update_functions() == update_functions@
            },
    {
        let n = variables.len();
        if update_functions.len() != n || n > u32::MAX as usize {
            return None;
        }
        let mut i: usize = 0;
        while i < n
            invariant
                i <= n,
                n == variables@.len(),
                forall|j: int| 0 <= j < i ==> c_safe(#[trigger] names(variables@)[j]),
            decreases n - i,
        {
            if !is_c_safe(variables[i].as_str()) {
                assert(!c_safe(names(variables@)[i as int]));
                return None;
            }
            i += 1;
        }
        let mut p: usize = 0;
        while p < parameters.len()
            invariant
                p <= parameters@.len(),
                forall|j: int|
                    0 <= j < p ==> c_safe(#[trigger] names_of(parameters@)[j]) && names_of(
                        parameters@,
                    )[j].len() > 0,
                forall|j: int| 0 <= j < p ==> #[trigger] arities_of(parameters@)[j] <= u32::MAX,
            decreases parameters@.len() - p,
        {
            if !is_c_safe(parameters[p].name.as_str()) || parameters[p].name.as_str().is_empty() {
                assert(!c_safe(names_of(parameters@)[p as int]) || names_of(
                    parameters@,
                )[p as int].len() == 0);
                return None;
            }
            if parameters[p].arity > u32::MAX as usize {
                assert(arities_of(parameters@)[p as int] > u32::MAX);
                return None;
            }
            p += 1;
        }
        let mut a: usize = 0;
        while a < n
            invariant
                a <= n,
                n == variables@.len(),
                forall|x: int, y: int|
                    0 <= x < y < a ==> names(variables@)[x] != names(variables@)[y],
            decreases n - a,
        {
            let mut b: usize = 0;
            while b < a
                invariant
                    b <= a < n,
                    n == variables@.len(),
                    forall|x: int| 0 <= x < b ==> names(variables@)[x] != names(variables@)[a as int],
                decreases a - b,
            {
                if str_equal(variables[b].as_str(), variables[a].as_str()) {
                    assert(names(variables@)[b as int] == names(variables@)[a as int]);
                    return None;
                }
                b += 1;
            }
            a += 1;
        }
        let mut c: usize = 0;
        while c < parameters.len()
            invariant
                c <= parameters@.len(),
                forall|x: int, y: int|
                    0 <= x < y < c ==> names_of(parameters@)[x] != names_of(parameters@)[y],
            decreases parameters@.len() - c,
        {
            let mut d: usize = 0;
            while d < c
                invariant
                    d <= c < parameters@.len(),
                    forall|x: int|
                        0 <= x < d ==> names_of(parameters@)[x] != names_of(parameters@)[c as int],
                decreases c - d,
            {
                if str_equal(parameters[d].name.as_str(), parameters[c].name.as_str()) {
                    assert(names_of(parameters@)[d as int] == names_of(parameters@)[c as int]);
                    return None;
                }
                d += 1;
            }
            c += 1;
        }
        let mut r: usize = 0;
        while r < regulations.len()
            invariant
                r <= regulations@.len(),
                n == variables@.len(),
                forall|j: int|
                    0 <= j < r ==> (#[trigger] regulations@[j]).regulator < n
                        && regulations@[j].target < n,
            decreases regulations@.len() - r,
        {
            if regulations[r].regulator >= n || regulations[r].target >= n {
                return None;
            }
            r += 1;
        }
        let mut u: usize = 0;
        while u < n
            invariant
                u <= n,
                n == variables@.len(),
                n == update_functions@.len(),
                forall|j: int|
                    0 <= j < u ==> ((#[trigger] update_functions@[j]) matches Some(f) ==> f.valid(
                        n as nat,
                        arities_of(parameters@),
                    )),
            decreases n - u,
        {
            match &update_functions[u] {
                Some(f) => {
                    if !update_is_valid(f, n, &parameters) {
                        return None;
                    }
                },
                None => {},
            }
            u += 1;
        }
        Some(NetworkModel { variables, regulations, parameters, update_functions })
    }

    /// The network with no regulation held to be monotonous: everything else
    /// stays as it is.
    pub fn strip_monotonicity(self) -> (r: NetworkModel)
        requires
            self.wf(),
        ensures
            r.wf(),
            r.variables() == self.variables(),
            r.parameter_names() == self.parameter_names(),
            r.arities() == self.arities(),
            r.update_functions() == self.update_functions(),
            r.regulations().len() == self.regulations().len(),
            forall|i: int|
                0 <= i < r.regulations().len() ==> (#[trigger] r.regulations()[i]) == (Regulation {
                    monotonicity: None,
                    ..self.regulations()[i]
                }),
    {
        let mut regulations: Vec<Regulation> = Vec::new();
        let mut i: usize = 0;
        while i < self.regulations.len()
            invariant
                i <= self.regulations@.len(),
                regulations@.len() == i,
                forall|j: int|
                    0 <= j < i ==> (#[trigger] regulations@[j]) == (Regulation {
                        monotonicity: None,
                        ..self.regulations@[j]
                    }),
            decreases self.regulations@.len() - i,
        {
            let regulation = self.regulations[i];
            regulations.push(
                Regulation {
                    regulator: regulation.regulator,
                    target: regulation.target,
                    observable: regulation.observable,
                    monotonicity: None,
                },
            );
            i += 1;
        }
        NetworkModel {
            variables: self.variables,
            regulations,
            parameters: self.parameters,
            update_functions: self.update_functions,
        }
    }

    /// The number of components.
    pub fn num_vars(&self) -> (n: usize)
        ensures
            n == self.variables().len(),
    {
        self.variables.len()
    }

    /// The name of the component at `index`.
    pub fn get_variable_name(&self, index: usize) -> (name: &String)
        requires
            index < self.variables().len(),
        ensures
            name@ == self.variables()[index as int],
    {
        &self.variables[index]
    }

    /// The names of the components, each at its index.
    pub fn variable_names(&self) -> (r: &Vec<String>)
        ensures
            names(r@) == self.variables(),
    {
        &self.variables
    }

    /// The first component of the given name.
    pub fn find_variable(&self, name: &str) -> (r: Option<usize>)
        ensures
            r is Some <==> position_of(self.variables(), name@) is Some,
            r matches Some(i) ==> position_of(self.variables(), name@) == Some(i as int) && i
                < self.variables().len(),
    {
        find_name(&self.variables, name)
    }

    /// The number of regulations.
    pub fn num_regulations(&self) -> (n: usize)
        ensures
            n == self.regulations().len(),
    {
        self.regulations.len()
    }

    /// The regulation at `index`.
    pub fn get_regulation(&self, index: usize) -> (r: Regulation)
        requires
            index < self.regulations().len(),
        ensures
            r == self.regulations()[index as int],
    {
        self.regulations[index]
    }

    /// The number of uninterpreted functions.
    pub fn num_parameters(&self) -> (n: usize)
        ensures
            n == self.parameter_names().len(),
            n == self.arities().len(),
    {
        self.parameters.len()
    }

    /// The uninterpreted function at `index`.
    pub fn get_parameter(&self, index: usize) -> (p: &UninterpretedFunction)
        requires
            index < self.parameter_names().len(),
        ensures
            p.name@ == self.parameter_names()[index as int],
            p.arity == self.arities()[index as int],
    {
        &self.parameters[index]
    }

    /// The update function of the component at `index`, where it has one.
    pub fn get_update_function(&self, index: usize) -> (f: &Option<FnUpdate>)
        requires
            index < self.update_functions().len(),
        ensures
            *f == self.update_functions()[index as int],
    {
        &self.update_functions[index]
    }

    /// The number of components without an update function.
    pub fn num_implicit_parameters(&self) -> (n: usize)
        ensures
            n == self.implicit_parameters(),
    {
        let mut n: usize = 0;
        let mut i: usize = 0;
        let ghost all = self.update_functions@;
        assert(all.take(0) =~= Seq::<Option<FnUpdate>>::empty());
        while i < self.update_functions.len()
            invariant
                i <= all.len(),
                all == self.update_functions@,
                n == count_open(all.take(i as int)),
                n <= i,
            decreases all.len() - i,
        {
            proof {
                assert(all.take(i + 1).drop_last() =~= all.take(i as int));
            }
            if self.update_functions[i].is_none() {
                n += 1;
            }
            i += 1;
        }
        assert(all.take(i as int) =~= all);
        n
    }
}

} // verus!
