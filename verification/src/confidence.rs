//! How far an observed value is trusted: a fraction above zero and at most
//! one.

use vstd::prelude::*;

verus! {

/// A fraction `numer / denom` that lies in `(0, 1]`. One means that the
/// observation is mandatory; anything below is the cost of going against it.
#[derive(Clone, Copy, Debug, PartialEq, Eq, Structural)]
pub struct Confidence {
    numer: u128,
    denom: u128,
}

impl Confidence {
    /// The numerator.
    pub closed spec fn numer(self) -> nat {
        self.numer as nat
    }

    /// The denominator.
    pub closed spec fn denom(self) -> nat {
        self.denom as nat
    }

    /// The fraction lies above zero and is at most one.
    pub open spec fn wf(self) -> bool {
        0 < self.numer() <= self.denom()
    }

    /// The fraction is one.
    pub open spec fn is_one_spec(self) -> bool {
        self.numer() == self.denom()
    }

    /// The fraction `numer / denom`, whatever it is.
    pub closed spec fn of(numer: u128, denom: u128) -> Confidence {
        Confidence { numer, denom }
    }

    /// The confidence `numer / denom`, if that fraction lies in `(0, 1]`.
    pub fn new(numer: u128, denom: u128) -> (r: Option<Confidence>)
        ensures
            r is Some <==> 0 < numer <= denom,
            r matches Some(c) ==> c == Confidence::of(numer, denom) && c.numer() == numer
                && c.denom() == denom && c.wf(),
    {
        if 0 < numer && numer <= denom {
            Some(Confidence { numer, denom })
        } else {
            None
        }
    }

    /// Full confidence.
    pub fn one() -> (c: Confidence)
        ensures
            c == Confidence::of(1, 1),
            c.numer() == 1,
            c.denom() == 1,
            c.wf(),
            c.is_one_spec(),
    {
        Confidence { numer: 1, denom: 1 }
    }

    /// One half: the weight given to an observation that comes without one.
    pub fn half() -> (c: Confidence)
        ensures
            c == Confidence::of(1, 2),
            c.numer() == 1,
            c.denom() == 2,
            c.wf(),
            !c.is_one_spec(),
    {
        Confidence { numer: 1, denom: 2 }
    }

    /// Whether the confidence is one.
    pub fn is_one(&self) -> (b: bool)
        ensures
            b == self.is_one_spec(),
    {
        self.numer == self.denom
    }

    /// The numerator.
    pub fn numerator(&self) -> (n: u128)
        ensures
            n == self.numer(),
    {
        self.numer
    }

    /// The denominator.
    pub fn denominator(&self) -> (n: u128)
        ensures
            n == self.denom(),
    {
        self.denom
    }
}

/// The parts of a fraction are what it was made of, and two fractions with the
/// same parts are one.
pub proof fn lemma_confidence_parts(numer: u128, denom: u128)
    ensures
        Confidence::of(numer, denom).numer() == numer,
        Confidence::of(numer, denom).denom() == denom,
        forall|c: Confidence|
            c.numer() == numer && c.denom() == denom ==> c == #[trigger] Confidence::of(
                numer,
                denom,
            ),
{
}

} // verus!
