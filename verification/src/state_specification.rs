//! What was observed of one state: for some components a value, each with the
//! confidence that it is held with.

use crate::confidence::Confidence;
use vstd::prelude::*;

verus! {

/// The value asserted of one component, and how far it is trusted.
#[derive(Clone, Copy, Debug, PartialEq, Eq, Structural)]
pub struct Assertion {
    pub variable: usize,
    pub value: bool,
    pub confidence: Confidence,
}

/// Whether the components of `s` strictly increase (so that none occurs twice).
pub open spec fn ordered(s: Seq<Assertion>) -> bool {
    forall|i: int, j: int| 0 <= i < j < s.len() ==> (#[trigger] s[i]).variable < (#[trigger] s[j]).variable
}

/// How many leading assertions of `s` speak of a component before `variable`:
/// where `variable` stands, or would stand, in an ordered `s`.
pub open spec fn place(s: Seq<Assertion>, variable: usize) -> int
    decreases s.len(),
{
    if s.len() > 0 && s[0].variable < variable {
        1 + place(s.drop_first(), variable)
    } else {
        0
    }
}

/// Whether `s` asserts something of `variable`.
pub open spec fn asserts(s: Seq<Assertion>, variable: usize) -> bool {
    place(s, variable) < s.len() && s[place(s, variable)].variable == variable
}

/// What an ordered `s` asserts of `variable`.
pub open spec fn assertion_of(s: Seq<Assertion>, variable: usize) -> Option<Assertion> {
    if asserts(s, variable) {
        Some(s[place(s, variable)])
    } else {
        None
    }
}

/// `s` with the assertion `a`: in place of what `s` said of that component, or
/// as a new assertion where the order puts it.
pub open spec fn with_assertion(s: Seq<Assertion>, a: Assertion) -> Seq<Assertion> {
    if asserts(s, a.variable) {
        s.update(place(s, a.variable), a)
    } else {
        s.insert(place(s, a.variable), a)
    }
}

/// The mandatory part of `s`: component and value of each assertion held with
/// confidence one, in the order of `s`.
pub open spec fn required_part(s: Seq<Assertion>) -> Seq<(usize, bool)>
    decreases s.len(),
{
    if s.len() == 0 {
        Seq::empty()
    } else if s.last().confidence.is_one_spec() {
        required_part(s.drop_last()).push((s.last().variable, s.last().value))
    } else {
        required_part(s.drop_last())
    }
}

/// The preferential part of `s`: component, value and weight of each assertion
/// held with a confidence other than one, in the order of `s`.
pub open spec fn optional_part(s: Seq<Assertion>) -> Seq<(usize, (bool, Confidence))>
    decreases s.len(),
{
    if s.len() == 0 {
        Seq::empty()
    } else if !s.last().confidence.is_one_spec() {
        optional_part(s.drop_last()).push(
            (s.last().variable, (s.last().value, s.last().confidence)),
        )
    } else {
        optional_part(s.drop_last())
    }
}

/// The place is the one index that has only earlier components before it and
/// no earlier component at it.
pub proof fn lemma_place(s: Seq<Assertion>, variable: usize)
    ensures
        0 <= place(s, variable) <= s.len(),
        forall|j: int| 0 <= j < place(s, variable) ==> (#[trigger] s[j]).variable < variable,
        place(s, variable) < s.len() ==> s[place(s, variable)].variable >= variable,
    decreases s.len(),
{
    if s.len() > 0 && s[0].variable < variable {
        let t = s.drop_first();
        lemma_place(t, variable);
        assert forall|j: int| 0 <= j < place(s, variable) implies (#[trigger] s[j]).variable
            < variable by {
            if j > 0 {
                assert(s[j] == t[j - 1]);
            }
        }
        if place(s, variable) < s.len() {
            assert(s[place(s, variable)] == t[place(t, variable)]);
        }
    }
}

/// An index that has only earlier components before it and no earlier
/// component at it is the place.
pub proof fn lemma_place_is(s: Seq<Assertion>, variable: usize, i: int)
    requires
        0 <= i <= s.len(),
        forall|j: int| 0 <= j < i ==> (#[trigger] s[j]).variable < variable,
        i < s.len() ==> s[i].variable >= variable,
    ensures
        place(s, variable) == i,
    decreases s.len(),
{
    if i > 0 {
        let t = s.drop_first();
        assert(s[0].variable < variable);
        assert forall|j: int| 0 <= j < i - 1 implies (#[trigger] t[j]).variable < variable by {
            assert(t[j] == s[j + 1]);
        }
        if i - 1 < t.len() {
            assert(t[i - 1] == s[i]);
        }
        lemma_place_is(t, variable, i - 1);
    }
}

/// In an ordered sequence an assertion stands at the place of its component.
pub proof fn lemma_place_of_entry(s: Seq<Assertion>, i: int)
    requires
        ordered(s),
        0 <= i < s.len(),
    ensures
        place(s, s[i].variable) == i,
        assertion_of(s, s[i].variable) == Some(s[i]),
{
    lemma_place_is(s, s[i].variable, i);
}

/// Asserting something of a component keeps the order, sets what is said of
/// that component and leaves every other component as it was.
pub proof fn lemma_with_assertion(s: Seq<Assertion>, a: Assertion)
    requires
        ordered(s),
    ensures
        ordered(with_assertion(s, a)),
        assertion_of(with_assertion(s, a), a.variable) == Some(a),
        forall|other: usize|
            other != a.variable ==> #[trigger] assertion_of(with_assertion(s, a), other)
                == assertion_of(s, other),
{
    let p = place(s, a.variable);
    let u = with_assertion(s, a);
    lemma_place(s, a.variable);
    assert forall|i: int, j: int| 0 <= i < j < u.len() implies (#[trigger] u[i]).variable < (
    #[trigger] u[j]).variable by {
        if asserts(s, a.variable) {
            assert(u[i].variable == s[i].variable);
            assert(u[j].variable == s[j].variable);
        } else {
            let si = if i < p { s[i] } else { s[i - 1] };
            let sj = if j < p { s[j] } else { s[j - 1] };
            if i != p {
                assert(u[i] == si);
            }
            if j != p {
                assert(u[j] == sj);
            }
            if i != p && j > p && p < s.len() {
                assert(s[p].variable <= s[j - 1].variable);
            }
            if i == p && j - 1 > p {
                assert(s[p].variable < s[j - 1].variable);
            }
        }
    }
    assert(u[p] == a);
    lemma_place_of_entry(u, p);
    assert forall|other: usize| other != a.variable implies #[trigger] assertion_of(u, other)
        == assertion_of(s, other) by {
        lemma_place(s, other);
        let q = place(s, other);
        if asserts(s, a.variable) {
            assert forall|j: int| 0 <= j < q implies (#[trigger] u[j]).variable < other by {
                assert(u[j].variable == s[j].variable);
            }
            if q < u.len() {
                assert(u[q].variable == s[q].variable);
            }
            lemma_place_is(u, other, q);
        } else if other < a.variable {
            if q > p {
                assert(s[p].variable < other);
            }
            assert forall|j: int| 0 <= j < q implies (#[trigger] u[j]).variable < other by {
                assert(u[j] == s[j]);
            }
            if q < p {
                assert(u[q] == s[q]);
            }
            lemma_place_is(u, other, q);
        } else {
            if q < p {
                assert(s[q].variable < a.variable);
            }
            assert forall|j: int| 0 <= j < q + 1 implies (#[trigger] u[j]).variable < other by {
                if j < p {
                    assert(u[j] == s[j]);
                } else if j > p {
                    assert(u[j] == s[j - 1]);
                }
            }
            if q + 1 < u.len() {
                assert(u[q + 1] == s[q]);
            }
            lemma_place_is(u, other, q + 1);
        }
    }
}

/// Asserting something of a component below `n` keeps all components below
/// `n`, and asserting it with a valid confidence keeps all confidences valid.
pub proof fn lemma_with_assertion_within(s: Seq<Assertion>, a: Assertion, n: nat)
    requires
        forall|i: int| 0 <= i < s.len() ==> (#[trigger] s[i]).variable < n,
        a.variable < n,
    ensures
        forall|i: int|
            0 <= i < with_assertion(s, a).len() ==> (#[trigger] with_assertion(s, a)[i]).variable
                < n,
{
    let p = place(s, a.variable);
    let u = with_assertion(s, a);
    lemma_place(s, a.variable);
    assert forall|i: int| 0 <= i < u.len() implies (#[trigger] u[i]).variable < n by {
        if asserts(s, a.variable) {
            if i != p {
                assert(u[i] == s[i]);
            }
        } else if i < p {
            assert(u[i] == s[i]);
        } else if i > p {
            assert(u[i] == s[i - 1]);
        }
    }
}

/// What the mandatory part holds was asserted with confidence one.
pub proof fn lemma_required_sound(s: Seq<Assertion>, e: (usize, bool))
    requires
        required_part(s).contains(e),
    ensures
        exists|k: int|
            0 <= k < s.len() && (#[trigger] s[k]).variable == e.0 && s[k].value == e.1
                && s[k].confidence.is_one_spec(),
    decreases s.len(),
{
    if s.len() > 0 {
        let t = s.drop_last();
        let i = choose|i: int| 0 <= i < required_part(s).len() && required_part(s)[i] == e;
        if s.last().confidence.is_one_spec() && i == required_part(t).len() {
            assert(s[s.len() - 1] == s.last());
        } else {
            assert(required_part(t)[i] == e);
            lemma_required_sound(t, e);
            let k = choose|k: int|
                0 <= k < t.len() && (#[trigger] t[k]).variable == e.0 && t[k].value == e.1
                    && t[k].confidence.is_one_spec();
            assert(s[k] == t[k]);
        }
    }
}

/// What was asserted with confidence one is in the mandatory part.
pub proof fn lemma_required_complete(s: Seq<Assertion>, k: int)
    requires
        0 <= k < s.len(),
        s[k].confidence.is_one_spec(),
    ensures
        required_part(s).contains((s[k].variable, s[k].value)),
    decreases s.len(),
{
    let t = s.drop_last();
    let r = required_part(s);
    if k == s.len() - 1 {
        assert(r[r.len() - 1] == (s[k].variable, s[k].value));
    } else {
        assert(t[k] == s[k]);
        lemma_required_complete(t, k);
        let i = choose|i: int|
            0 <= i < required_part(t).len() && required_part(t)[i] == (s[k].variable, s[k].value);
        assert(r[i] == (s[k].variable, s[k].value));
    }
}

/// What the preferential part holds was asserted with a confidence other than
/// one.
pub proof fn lemma_optional_sound(s: Seq<Assertion>, e: (usize, (bool, Confidence)))
    requires
        optional_part(s).contains(e),
    ensures
        exists|k: int|
            0 <= k < s.len() && (#[trigger] s[k]).variable == e.0 && s[k].value == e.1.0
                && s[k].confidence == e.1.1 && !s[k].confidence.is_one_spec(),
    decreases s.len(),
{
    if s.len() > 0 {
        let t = s.drop_last();
        let i = choose|i: int| 0 <= i < optional_part(s).len() && optional_part(s)[i] == e;
        if !s.last().confidence.is_one_spec() && i == optional_part(t).len() {
            assert(s[s.len() - 1] == s.last());
        } else {
            assert(optional_part(t)[i] == e);
            lemma_optional_sound(t, e);
            let k = choose|k: int|
                0 <= k < t.len() && (#[trigger] t[k]).variable == e.0 && t[k].value == e.1.0
                    && t[k].confidence == e.1.1 && !t[k].confidence.is_one_spec();
            assert(s[k] == t[k]);
        }
    }
}

/// What was asserted with a confidence other than one is in the preferential
/// part.
pub proof fn lemma_optional_complete(s: Seq<Assertion>, k: int)
    requires
        0 <= k < s.len(),
        !s[k].confidence.is_one_spec(),
    ensures
        optional_part(s).contains((s[k].variable, (s[k].value, s[k].confidence))),
    decreases s.len(),
{
    let t = s.drop_last();
    let r = optional_part(s);
    let e = (s[k].variable, (s[k].value, s[k].confidence));
    if k == s.len() - 1 {
        assert(r[r.len() - 1] == e);
    } else {
        assert(t[k] == s[k]);
        lemma_optional_complete(t, k);
        let i = choose|i: int| 0 <= i < optional_part(t).len() && optional_part(t)[i] == e;
        assert(r[i] == e);
    }
}

/// The preferential part of an ordered specification is in the order of the
/// components, so that none occurs twice in it.
pub proof fn lemma_optional_ordered(s: Seq<Assertion>)
    requires
        ordered(s),
    ensures
        forall|i: int, j: int|
            0 <= i < j < optional_part(s).len() ==> (#[trigger] optional_part(s)[i]).0 < (
            #[trigger] optional_part(s)[j]).0,
    decreases s.len(),
{
    if s.len() > 0 {
        let t = s.drop_last();
        assert forall|i: int, j: int| 0 <= i < j < t.len() implies (#[trigger] t[i]).variable < (
        #[trigger] t[j]).variable by {
            assert(t[i] == s[i] && t[j] == s[j]);
        }
        lemma_optional_ordered(t);
        let o = optional_part(s);
        assert forall|i: int, j: int| 0 <= i < j < o.len() implies (#[trigger] o[i]).0 < (
        #[trigger] o[j]).0 by {
            if j == optional_part(t).len() {
                let e = optional_part(t)[i];
                assert(o[i] == e);
                assert(optional_part(t).contains(e));
                lemma_optional_sound(t, e);
                let k = choose|k: int|
                    0 <= k < t.len() && (#[trigger] t[k]).variable == e.0 && t[k].value == e.1.0
                        && t[k].confidence == e.1.1 && !t[k].confidence.is_one_spec();
                assert(t[k] == s[k]);
                assert(s[k].variable < s[s.len() - 1].variable);
            } else {
                assert(o[i] == optional_part(t)[i] && o[j] == optional_part(t)[j]);
            }
        }
    }
}

/// The two parts together are as long as the whole.
pub proof fn lemma_parts_len(s: Seq<Assertion>)
    ensures
        required_part(s).len() + optional_part(s).len() == s.len(),
    decreases s.len(),
{
    if s.len() > 0 {
        lemma_parts_len(s.drop_last());
    }
}

/// The mandatory and the preferential part of a specification split its
/// assertions in two: every assertion is in exactly one of them, the
/// mandatory part holds exactly those of confidence one, the preferential
/// part exactly those of a confidence below one, and no component occurs in
/// both.
pub proof fn lemma_partition(s: Seq<Assertion>)
    requires
        ordered(s),
        forall|k: int| 0 <= k < s.len() ==> (#[trigger] s[k]).confidence.wf(),
    ensures
        required_part(s).len() + optional_part(s).len() == s.len(),
        forall|j: int|
            0 <= j < optional_part(s).len() ==> (#[trigger] optional_part(s)[j]).1.1.numer()
                < optional_part(s)[j].1.1.denom(),
        forall|k: int|
            0 <= k < s.len() ==> ((#[trigger] s[k]).confidence.is_one_spec()
                <==> required_part(s).contains((s[k].variable, s[k].value))),
        forall|k: int|
            0 <= k < s.len() ==> (!(#[trigger] s[k]).confidence.is_one_spec()
                <==> optional_part(s).contains((s[k].variable, (s[k].value, s[k].confidence)))),
        forall|e: (usize, bool)|
            #[trigger] required_part(s).contains(e) ==> exists|k: int|
                0 <= k < s.len() && (#[trigger] s[k]).variable == e.0 && s[k].value == e.1
                    && s[k].confidence.is_one_spec(),
        forall|e: (usize, (bool, Confidence))|
            #[trigger] optional_part(s).contains(e) ==> exists|k: int|
                0 <= k < s.len() && (#[trigger] s[k]).variable == e.0 && s[k].value == e.1.0
                    && s[k].confidence == e.1.1 && !s[k].confidence.is_one_spec(),
        forall|i: int, j: int|
            0 <= i < required_part(s).len() && 0 <= j < optional_part(s).len() ==> (
            #[trigger] required_part(s)[i]).0 != (#[trigger] optional_part(s)[j]).0,
{
    lemma_parts_len(s);
    assert forall|j: int| 0 <= j < optional_part(s).len() implies (#[trigger] optional_part(
        s,
    )[j]).1.1.numer() < optional_part(s)[j].1.1.denom() by {
        let e = optional_part(s)[j];
        assert(optional_part(s).contains(e));
        lemma_optional_sound(s, e);
    }
    assert forall|e: (usize, bool)| #[trigger] required_part(s).contains(e) implies exists|k: int|
        0 <= k < s.len() && (#[trigger] s[k]).variable == e.0 && s[k].value == e.1
            && s[k].confidence.is_one_spec() by {
        lemma_required_sound(s, e);
    }
    assert forall|e: (usize, (bool, Confidence))| #[trigger]
        optional_part(s).contains(e) implies exists|k: int|
        0 <= k < s.len() && (#[trigger] s[k]).variable == e.0 && s[k].value == e.1.0
            && s[k].confidence == e.1.1 && !s[k].confidence.is_one_spec() by {
        lemma_optional_sound(s, e);
    }
    assert forall|k: int| 0 <= k < s.len() implies ((#[trigger] s[k]).confidence.is_one_spec()
        <==> required_part(s).contains((s[k].variable, s[k].value))) by {
        if s[k].confidence.is_one_spec() {
            lemma_required_complete(s, k);
        }
        if required_part(s).contains((s[k].variable, s[k].value)) {
            lemma_required_sound(s, (s[k].variable, s[k].value));
            let m = choose|m: int|
                0 <= m < s.len() && (#[trigger] s[m]).variable == s[k].variable && s[m].value
                    == s[k].value && s[m].confidence.is_one_spec();
            assert(m == k) by {
                if m < k {
                    assert(s[m].variable < s[k].variable);
                }
                if k < m {
                    assert(s[k].variable < s[m].variable);
                }
            }
        }
    }
    assert forall|k: int| 0 <= k < s.len() implies (!(#[trigger] s[k]).confidence.is_one_spec()
        <==> optional_part(s).contains((s[k].variable, (s[k].value, s[k].confidence)))) by {
        let e = (s[k].variable, (s[k].value, s[k].confidence));
        if !s[k].confidence.is_one_spec() {
            lemma_optional_complete(s, k);
        }
        if optional_part(s).contains(e) {
            lemma_optional_sound(s, e);
        }
    }
    assert forall|i: int, j: int|
        0 <= i < required_part(s).len() && 0 <= j < optional_part(s).len() implies (
    #[trigger] required_part(s)[i]).0 != (#[trigger] optional_part(s)[j]).0 by {
        let a = required_part(s)[i];
        let b = optional_part(s)[j];
        assert(required_part(s).contains(a));
        assert(optional_part(s).contains(b));
        lemma_required_sound(s, a);
        lemma_optional_sound(s, b);
        let m = choose|m: int|
            0 <= m < s.len() && (#[trigger] s[m]).variable == a.0 && s[m].value == a.1
                && s[m].confidence.is_one_spec();
        let n = choose|n: int|
            0 <= n < s.len() && (#[trigger] s[n]).variable == b.0 && s[n].value == b.1.0
                && s[n].confidence == b.1.1 && !s[n].confidence.is_one_spec();
        if a.0 == b.0 {
            if m < n {
                assert(s[m].variable < s[n].variable);
            }
            if n < m {
                assert(s[n].variable < s[m].variable);
            }
        }
    }
}

/// The observed properties of one state: for each component at most one
/// assertion, kept in the order of the components.
#[derive(Debug)]
pub struct StateSpecification {
    entries: Vec<Assertion>,
}

impl View for StateSpecification {
    type V = Seq<Assertion>;

    /// The assertions in the order of their components.
    closed spec fn view(&self) -> Seq<Assertion> {
        self.entries@
    }
}

impl StateSpecification {
    /// The components strictly increase and every confidence lies in `(0, 1]`.
    pub open spec fn wf(&self) -> bool {
        &&& ordered(self@)
        &&& forall|i: int| 0 <= i < self@.len() ==> (#[trigger] self@[i]).confidence.wf()
    }

    /// A specification with no assertions.
    pub fn new() -> (s: StateSpecification)
        ensures
            s@ == Seq::<Assertion>::empty(),
            s.wf(),
    {
        StateSpecification { entries: Vec::new() }
    }

    /// Puts the assertion where its component stands, in place of what was
    /// said of that component.
    fn put(&mut self, a: Assertion)
        requires
            old(self).wf(),
            a.confidence.wf(),
        ensures
            final(self)@ == with_assertion(old(self)@, a),
            final(self).wf(),
    {
        let mut i: usize = 0;
        while i < self.entries.len() && self.entries[i].variable < a.variable
            invariant
                i <= self.entries@.len(),
                forall|j: int| 0 <= j < i ==> (#[trigger] self.entries@[j]).variable < a.variable,
            decreases self.entries@.len() - i,
        {
            i += 1;
        }
        proof {
            lemma_place_is(self@, a.variable, i as int);
            lemma_with_assertion(self@, a);
        }
        if i < self.entries.len() && self.entries[i].variable == a.variable {
            self.entries.set(i, a);
        } else {
            self.entries.insert(i, a);
        }
        assert(self@ =~= with_assertion(old(self)@, a));
        assert forall|k: int| 0 <= k < self@.len() implies (#[trigger] self@[k]).confidence.wf() by {
            if k < i {
                assert(self@[k] == old(self)@[k]);
            } else if k > i {
                assert(self@[k] == old(self)@[k] || self@[k] == old(self)@[k - 1]);
            }
        }
    }

    /// Asserts that for the specification to be met, `variable` must have the
    /// given `value`. This takes the place of what was said of `variable`.
    pub fn assert_must(&mut self, variable: usize, value: bool)
        requires
            old(self).wf(),
        ensures
            final(self).wf(),
            final(self)@ == with_assertion(
                old(self)@,
                Assertion { variable, value, confidence: Confidence::of(1, 1) },
            ),
    {
        let confidence = Confidence::one();
        self.put(Assertion { variable, value, confidence });
    }

    /// Asserts that the specification prefers `variable` to have the given
    /// `value`: going against it costs `confidence`. With a confidence of one
    /// this is `assert_must`. It takes the place of what was said of
    /// `variable`.
    pub fn assert_may(&mut self, variable: usize, value: bool, confidence: &Confidence)
        requires
            old(self).wf(),
            confidence.wf(),
        ensures
            final(self).wf(),
            final(self)@ == with_assertion(
                old(self)@,
                Assertion { variable, value, confidence: *confidence },
            ),
    {
        self.put(Assertion { variable, value, confidence: *confidence });
    }

    /// The number of components that something is asserted of.
    pub fn len(&self) -> (n: usize)
        ensures
            n == self@.len(),
    {
        self.entries.len()
    }

    /// The assertion at position `i`, in the order of the components.
    pub fn entry(&self, i: usize) -> (a: Assertion)
        requires
            i < self@.len(),
        ensures
            a == self@[i as int],
    {
        self.entries[i]
    }

    /// Whether every assertion speaks of one of the first `n` components.
    pub fn is_within(&self, n: usize) -> (b: bool)
        ensures
            b == forall|i: int| 0 <= i < self@.len() ==> (#[trigger] self@[i]).variable < n,
    {
        let mut i: usize = 0;
        while i < self.entries.len()
            invariant
                i <= self.entries@.len(),
                forall|j: int| 0 <= j < i ==> (#[trigger] self@[j]).variable < n,
            decreases self.entries@.len() - i,
        {
            if self.entries[i].variable >= n {
                assert(self@[i as int].variable >= n);
                return false;
            }
            i += 1;
        }
        true
    }

    /// All "must" assertions: component and value, in the order of the
    /// components.
    pub fn make_required_assertion_map(&self) -> (r: Vec<(usize, bool)>)
        ensures
            r@ == required_part(self@),
    {
        let mut r: Vec<(usize, bool)> = Vec::new();
        let mut i: usize = 0;
        assert(self@.take(0) =~= Seq::<Assertion>::empty());
        while i < self.entries.len()
            invariant
                i <= self.entries@.len(),
                r@ == required_part(self@.take(i as int)),
            decreases self.entries@.len() - i,
        {
            proof {
                assert(self@.take(i + 1).drop_last() =~= self@.take(i as int));
            }
            let a = self.entries[i];
            if a.confidence.is_one() {
                r.push((a.variable, a.value));
            }
            i += 1;
        }
        assert(self@.take(i as int) =~= self@);
        r
    }

    /// All "may" assertions: component, value and weight, in the order of the
    /// components.
    pub fn make_optional_assertion_map(&self) -> (r: Vec<(usize, (bool, Confidence))>)
        ensures
            r@ == optional_part(self@),
    {
        let mut r: Vec<(usize, (bool, Confidence))> = Vec::new();
        let mut i: usize = 0;
        assert(self@.take(0) =~= Seq::<Assertion>::empty());
        while i < self.entries.len()
            invariant
                i <= self.entries@.len(),
                r@ == optional_part(self@.take(i as int)),
            decreases self.entries@.len() - i,
        {
            proof {
                assert(self@.take(i + 1).drop_last() =~= self@.take(i as int));
            }
            let a = self.entries[i];
            if !a.confidence.is_one() {
                r.push((a.variable, (a.value, a.confidence)));
            }
            i += 1;
        }
        assert(self@.take(i as int) =~= self@);
        r
    }
}

impl Clone for StateSpecification {
    /// A specification with the same assertions.
    fn clone(&self) -> (r: Self)
        ensures
            r@ == self@,
    {
        let mut entries: Vec<Assertion> = Vec::new();
        let mut i: usize = 0;
        while i < self.entries.len()
            invariant
                i <= self.entries@.len(),
                entries@ == self.entries@.take(i as int),
            decreases self.entries@.len() - i,
        {
            entries.push(self.entries[i]);
            assert(entries@ =~= self.entries@.take(i + 1));
            i += 1;
        }
        assert(self.entries@.take(i as int) =~= self.entries@);
        StateSpecification { entries }
    }
}

impl Default for StateSpecification {
    /// A specification with no assertions.
    fn default() -> (s: Self)
        ensures
            s@ == Seq::<Assertion>::empty(),
            s.wf(),
    {
        StateSpecification::new()
    }
}

} // verus!
