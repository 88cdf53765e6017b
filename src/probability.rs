use vstd::prelude::*;
use crate::american::{AmericanOdds, ToAmericanOdds};
use crate::decimal::{decimal_to_american, DecimalOdds, ToDecimalOdds};
use crate::fraction::{
    lemma_mul_bounds, lemma_reduce, reduce, reduce_u128, same_value, valid_probability,
};

verus! {

/// Message of the error that rejects a probability outside `[0, 1]`.
pub const PROBABILITY_RANGE: &'static str = "Probability odds must be between 0 and 1";

/// Message of the error for converting a probability of zero, whose payout is unbounded.
pub const ZERO_PROBABILITY: &'static str = "Probability odds of 0 have no decimal or American form";

/// Odds in probability format: the exact fraction `numerator / denominator`, in `[0, 1]`.
#[derive(Debug, Clone, Copy)]
pub struct ProbabilityOdds {
    numerator: u64,
    denominator: u64,
}

/// The name that the rest of the library uses for probability odds.
pub type Probability = ProbabilityOdds;

/// Conversion of odds to their implied probability.
pub trait ToProbability {
    /// The implied probability as a fraction `(numerator, denominator)`.
    spec fn probability_of(&self) -> (int, int);

    /// The implied probability; it always exists.
    fn to_probability(&self) -> (r: Result<ProbabilityOdds, &'static str>)
        ensures
            r is Ok,
            r->Ok_0.ratio() == self.probability_of(),
            valid_probability(self.probability_of()),
    ;
}

impl ProbabilityOdds {
    #[verifier::type_invariant]
    spec fn inv(self) -> bool {
        0 < self.denominator && self.numerator <= self.denominator
    }

    /// The numerator of the fraction.
    pub closed spec fn num(self) -> int {
        self.numerator as int
    }

    /// The denominator of the fraction.
    pub closed spec fn den(self) -> int {
        self.denominator as int
    }

    /// The probability as a fraction `(numerator, denominator)`.
    pub open spec fn ratio(self) -> (int, int) {
        (self.num(), self.den())
    }

    /// Builds the probability `numerator / denominator`, in lowest terms; fails unless it lies
    /// in `[0, 1]`.
    pub fn new(numerator: u64, denominator: u64) -> (r: Result<Self, &'static str>)
        ensures
            r is Ok <==> valid_probability((numerator as int, denominator as int)),
            r is Ok ==> r->Ok_0.ratio() == reduce((numerator as int, denominator as int)),
            r is Ok ==> same_value(r->Ok_0.ratio(), (numerator as int, denominator as int)),
            r is Err ==> r->Err_0 == PROBABILITY_RANGE,
    {
        if denominator == 0 || numerator > denominator {
            return Err(PROBABILITY_RANGE);
        }
        let (n, d) = reduce_u128(numerator as u128, denominator as u128);
        proof {
            lemma_reduce((numerator as int, denominator as int));
        }
        Ok(Self { numerator: n as u64, denominator: d as u64 })
    }

    /// The numerator of the fraction.
    pub fn numerator(&self) -> (r: u64)
        ensures
            r == self.num(),
            valid_probability(self.ratio()),
    {
        proof {
            use_type_invariant(self);
        }
        self.numerator
    }

    /// The denominator of the fraction.
    pub fn denominator(&self) -> (r: u64)
        ensures
            r == self.den(),
            valid_probability(self.ratio()),
    {
        proof {
            use_type_invariant(self);
        }
        self.denominator
    }
}

impl ToProbability for ProbabilityOdds {
    open spec fn probability_of(&self) -> (int, int) {
        self.ratio()
    }

    fn to_probability(&self) -> (r: Result<ProbabilityOdds, &'static str>) {
        proof {
            use_type_invariant(self);
        }
        Ok(*self)
    }
}

impl ToDecimalOdds for ProbabilityOdds {
    /// The decimal odds `1 / p`; a probability of zero has none.
    open spec fn decimal_of(&self) -> Result<(int, int), &'static str> {
        if self.num() == 0 {
            Err(ZERO_PROBABILITY)
        } else {
            Ok(reduce((self.den(), self.num())))
        }
    }

    fn to_decimal(&self) -> (r: Result<DecimalOdds, &'static str>) {
        proof {
            use_type_invariant(self);
        }
        if self.numerator == 0 {
            return Err(ZERO_PROBABILITY);
        }
        DecimalOdds::new(self.denominator, self.numerator)
    }
}

impl ToAmericanOdds for ProbabilityOdds {
    /// The American line of the decimal odds `1 / p`.
    open spec fn american_of(&self) -> Result<int, &'static str> {
        if self.num() == 0 {
            Err(ZERO_PROBABILITY)
        } else {
            decimal_to_american(reduce((self.den(), self.num())))
        }
    }

    fn to_american(&self) -> (r: Result<AmericanOdds, &'static str>) {
        let decimal = self.to_decimal()?;
        decimal.to_american()
    }
}

impl PartialEq for ProbabilityOdds {
    fn eq(&self, other: &ProbabilityOdds) -> (r: bool) {
        let (a, b) = (self.numerator as u128, self.denominator as u128);
        let (c, d) = (other.numerator as u128, other.denominator as u128);
        proof {
            lemma_mul_bounds(a as int, d as int, u64::MAX as int, u64::MAX as int);
            lemma_mul_bounds(c as int, b as int, u64::MAX as int, u64::MAX as int);
        }
        a * d == c * b
    }
}

impl vstd::std_specs::cmp::PartialEqSpecImpl for ProbabilityOdds {
    open spec fn obeys_eq_spec() -> bool {
        true
    }

    open spec fn eq_spec(&self, other: &ProbabilityOdds) -> bool {
        same_value(self.ratio(), other.ratio())
    }
}

} // verus!
