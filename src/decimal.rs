use vstd::prelude::*;
use crate::american::{american_valid, AmericanOdds, ToAmericanOdds, AMERICAN_RANGE};
use crate::fraction::{
    lemma_mul_bounds, lemma_reduce, reduce, reduce_u128, round_half_away, same_value, valid_decimal,
};
use crate::probability::{ProbabilityOdds, ToProbability};

verus! {

/// Message of the error that rejects decimal odds below 1.
pub const DECIMAL_LOW: &'static str = "Decimal odds must be greater than 1";

/// Odds in decimal format: the exact fraction `numerator / denominator`, at least 1.
#[derive(Debug, Clone, Copy)]
pub struct DecimalOdds {
    numerator: u64,
    denominator: u64,
}

/// Conversion of odds to decimal odds.
pub trait ToDecimalOdds {
    /// The decimal odds as a fraction `(numerator, denominator)`, or the error that converting gives.
    spec fn decimal_of(&self) -> Result<(int, int), &'static str>;

    /// The decimal odds, or the error of `decimal_of`.
    fn to_decimal(&self) -> (r: Result<DecimalOdds, &'static str>)
        ensures
            r is Ok <==> self.decimal_of() is Ok,
            r is Ok ==> r->Ok_0.ratio() == self.decimal_of()->Ok_0,
            r is Err ==> r->Err_0 == self.decimal_of()->Err_0,
    ;
}

/// The American line for the decimal odds `q`: `100 * (q - 1)` from even money up, else
/// `-100 / (q - 1)`, rounded half away from zero; an error where that is no valid `i32` line,
/// as for odds of exactly 1, whose line would be unbounded.
pub open spec fn decimal_to_american(q: (int, int)) -> Result<int, &'static str> {
    let (n, d) = q;
    if n >= 2 * d {
        let a = round_half_away(100 * (n - d), d);
        if a <= i32::MAX && american_valid(a) {
            Ok(a)
        } else {
            Err(AMERICAN_RANGE)
        }
    } else if n == d {
        Err(AMERICAN_RANGE)
    } else {
        let a = -round_half_away(100 * d, n - d);
        if i32::MIN <= a && american_valid(a) {
            Ok(a)
        } else {
            Err(AMERICAN_RANGE)
        }
    }
}

impl DecimalOdds {
    #[verifier::type_invariant]
    spec fn inv(self) -> bool {
        0 < self.denominator && self.denominator <= self.numerator
    }

    /// The numerator of the fraction.
    pub closed spec fn num(self) -> int {
        self.numerator as int
    }

    /// The denominator of the fraction.
    pub closed spec fn den(self) -> int {
        self.denominator as int
    }

    /// The odds as a fraction `(numerator, denominator)`.
    pub open spec fn ratio(self) -> (int, int) {
        (self.num(), self.den())
    }

    /// Builds the decimal odds `numerator / denominator`, in lowest terms; fails unless they are
    /// at least 1.
    pub fn new(numerator: u64, denominator: u64) -> (r: Result<Self, &'static str>)
        ensures
            r is Ok <==> valid_decimal((numerator as int, denominator as int)),
            r is Ok ==> r->Ok_0.ratio() == reduce((numerator as int, denominator as int)),
            r is Ok ==> same_value(r->Ok_0.ratio(), (numerator as int, denominator as int)),
            r is Err ==> r->Err_0 == DECIMAL_LOW,
    {
        if denominator == 0 || numerator < denominator {
            return Err(DECIMAL_LOW);
        }
        let (n, d) = reduce_u128(numerator as u128, denominator as u128);
        proof {
            lemma_reduce((numerator as int, denominator as int));
        }
        Ok(Self { numerator: n as u64, denominator: d as u64 })
    }

    /// The numerator of the fraction.
    pub fn numerator(&self) -> (r: u64)
        ensures
            r == self.num(),
            valid_decimal(self.ratio()),
    {
        proof {
            use_type_invariant(self);
        }
        self.numerator
    }

    /// The denominator of the fraction.
    pub fn denominator(&self) -> (r: u64)
        ensures
            r == self.den(),
            valid_decimal(self.ratio()),
    {
        proof {
            use_type_invariant(self);
        }
        self.denominator
    }
}

impl PartialEq for DecimalOdds {
    fn eq(&self, other: &DecimalOdds) -> (r: bool) {
        let (a, b) = (self.numerator as u128, self.denominator as u128);
        let (c, d) = (other.numerator as u128, other.denominator as u128);
        proof {
            lemma_mul_bounds(a as int, d as int, u64::MAX as int, u64::MAX as int);
            lemma_mul_bounds(c as int, b as int, u64::MAX as int, u64::MAX as int);
        }
        a * d == c * b
    }
}

impl vstd::std_specs::cmp::PartialEqSpecImpl for DecimalOdds {
    open spec fn obeys_eq_spec() -> bool {
        true
    }

    open spec fn eq_spec(&self, other: &DecimalOdds) -> bool {
        same_value(self.ratio(), other.ratio())
    }
}

impl ToProbability for DecimalOdds {
    /// The implied probability `1 / q`.
    open spec fn probability_of(&self) -> (int, int) {
        reduce((self.den(), self.num()))
    }

    fn to_probability(&self) -> (r: Result<ProbabilityOdds, &'static str>) {
        proof {
            use_type_invariant(self);
            lemma_reduce((self.den(), self.num()));
        }
        ProbabilityOdds::new(self.denominator, self.numerator)
    }
}

impl ToDecimalOdds for DecimalOdds {
    open spec fn decimal_of(&self) -> Result<(int, int), &'static str> {
        Ok(self.ratio())
    }

    fn to_decimal(&self) -> (r: Result<DecimalOdds, &'static str>) {
        Ok(*self)
    }
}

impl ToAmericanOdds for DecimalOdds {
    open spec fn american_of(&self) -> Result<int, &'static str> {
        decimal_to_american(self.ratio())
    }

    fn to_american(&self) -> (r: Result<AmericanOdds, &'static str>) {
        proof {
            use_type_invariant(self);
        }
        let n = self.numerator as u128;
        let d = self.denominator as u128;
        if n >= 2 * d {
            let q = (200 * (n - d) + d) / (2 * d);
            if q > i32::MAX as u128 {
                return Err(AMERICAN_RANGE);
            }
            AmericanOdds::new(q as i32)
        } else if n == d {
            Err(AMERICAN_RANGE)
        } else {
            let e = n - d;
            let q = (200 * d + e) / (2 * e);
            if q > 0x8000_0000 {
                return Err(AMERICAN_RANGE);
            }
            let a = -(q as i64);
            AmericanOdds::new(a as i32)
        }
    }
}

/// The implied probability of decimal odds `q` is exactly `1 / q`.
pub proof fn lemma_probability_is_reciprocal(odds: DecimalOdds)
    requires
        valid_decimal(odds.ratio()),
    ensures
        same_value(odds.probability_of(), (odds.den(), odds.num())),
{
    lemma_reduce((odds.den(), odds.num()));
}

} // verus!
