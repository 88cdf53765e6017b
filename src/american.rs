use vstd::prelude::*;
use crate::decimal::{decimal_to_american, DecimalOdds, ToDecimalOdds};
use crate::fraction::{lemma_mul_bounds, lemma_reduce, reduce, same_value};
use vstd::arithmetic::div_mod::lemma_fundamental_div_mod_converse;
use crate::probability::{ProbabilityOdds, ToProbability};

verus! {

/// Message of the error that rejects an American line strictly between -100 and 100.
pub const AMERICAN_RANGE: &'static str = "American odds must be < -100 and > 100";

/// Odds in American format: at most -100 or at least 100.
#[derive(Debug, Clone, Copy)]
pub struct AmericanOdds {
    pub value: i32,
}

/// Conversion of odds to an American line.
pub trait ToAmericanOdds {
    /// The American line, or the error that converting gives.
    spec fn american_of(&self) -> Result<int, &'static str>;

    /// The American line, or the error of `american_of`.
    fn to_american(&self) -> (r: Result<AmericanOdds, &'static str>)
        ensures
            r is Ok <==> self.american_of() is Ok,
            r is Ok ==> r->Ok_0.value == self.american_of()->Ok_0,
            r is Err ==> r->Err_0 == self.american_of()->Err_0,
    ;
}

/// An American line that construction accepts.
pub open spec fn american_valid(v: int) -> bool {
    v <= -100 || v >= 100
}

/// Decimal odds of the line `v`: `1 + 100 / -v` below zero, else `v / 100 + 1`.
pub open spec fn american_decimal(v: int) -> (int, int) {
    if v < 0 {
        (-v + 100, -v)
    } else {
        (v + 100, 100)
    }
}

/// Implied probability of the line `v`: `-v / (-v + 100)` below zero, else `100 / (100 + v)`.
pub open spec fn american_probability(v: int) -> (int, int) {
    if v < 0 {
        (-v, -v + 100)
    } else {
        (100, v + 100)
    }
}

impl AmericanOdds {
    /// Builds the line `value`; fails where it lies strictly between -100 and 100.
    pub fn new(value: i32) -> (r: Result<Self, &'static str>)
        ensures
            r is Ok <==> american_valid(value as int),
            r is Ok ==> r->Ok_0.value == value,
            r is Err ==> r->Err_0 == AMERICAN_RANGE,
    {
        if value > -100 && value < 100 {
            return Err(AMERICAN_RANGE);
        }
        Ok(Self { value })
    }
}

impl ToDecimalOdds for AmericanOdds {
    open spec fn decimal_of(&self) -> Result<(int, int), &'static str> {
        Ok(reduce(american_decimal(self.value as int)))
    }

    fn to_decimal(&self) -> (r: Result<DecimalOdds, &'static str>) {
        if self.value < 0 {
            let m = -(self.value as i64);
            DecimalOdds::new((m + 100) as u64, m as u64)
        } else {
            DecimalOdds::new((self.value as i64 + 100) as u64, 100)
        }
    }
}

impl ToProbability for AmericanOdds {
    open spec fn probability_of(&self) -> (int, int) {
        reduce(american_probability(self.value as int))
    }

    fn to_probability(&self) -> (r: Result<ProbabilityOdds, &'static str>) {
        proof {
            lemma_reduce(american_probability(self.value as int));
        }
        if self.value < 0 {
            let m = -(self.value as i64);
            ProbabilityOdds::new(m as u64, (m + 100) as u64)
        } else {
            ProbabilityOdds::new(100, (self.value as i64 + 100) as u64)
        }
    }
}

impl ToAmericanOdds for AmericanOdds {
    open spec fn american_of(&self) -> Result<int, &'static str> {
        Ok(self.value as int)
    }

    fn to_american(&self) -> (r: Result<AmericanOdds, &'static str>) {
        Ok(*self)
    }
}

/// Two lines are equal when their decimal odds are: -100 and 100 are the same line.
impl PartialEq for AmericanOdds {
    fn eq(&self, other: &AmericanOdds) -> (r: bool) {
        let (n1, d1) = if self.value < 0 {
            (-(self.value as i64) + 100, -(self.value as i64))
        } else {
            (self.value as i64 + 100, 100)
        };
        let (n2, d2) = if other.value < 0 {
            (-(other.value as i64) + 100, -(other.value as i64))
        } else {
            (other.value as i64 + 100, 100)
        };
        proof {
            lemma_mul_bounds(n1 as int, d2 as int, 0x1_0000_0000, 0x1_0000_0000);
            lemma_mul_bounds(n2 as int, d1 as int, 0x1_0000_0000, 0x1_0000_0000);
        }
        (n1 as i128) * (d2 as i128) == (n2 as i128) * (d1 as i128)
    }
}

impl vstd::std_specs::cmp::PartialEqSpecImpl for AmericanOdds {
    open spec fn obeys_eq_spec() -> bool {
        true
    }

    open spec fn eq_spec(&self, other: &AmericanOdds) -> bool {
        same_value(american_decimal(self.value as int), american_decimal(other.value as int))
    }
}

/// Converting a line to decimal odds and back gives the same line, so the same decimal odds;
/// only -100 comes back as 100, the line it equals.
pub proof fn lemma_american_round_trip(v: int)
    requires
        american_valid(v),
        i32::MIN <= v <= i32::MAX,
    ensures
        decimal_to_american(reduce(american_decimal(v))) == Ok::<int, &'static str>(
            if v == -100 {
                100
            } else {
                v
            },
        ),
        same_value(
            reduce(american_decimal(decimal_to_american(reduce(american_decimal(v)))->Ok_0)),
            reduce(american_decimal(v)),
        ),
{
    let f = american_decimal(v);
    lemma_reduce(f);
    let (a, b) = reduce(f);
    if v >= 0 {
        assert(a >= 2 * b && 200 * (a - b) + b == 2 * b * v + b) by (nonlinear_arith)
            requires
                a * 100 == (v + 100) * b,
                v >= 100,
                b > 0,
        ;
        lemma_fundamental_div_mod_converse(2 * b * v + b, 2 * b, v, b);
    } else if v == -100 {
        assert(a >= 2 * b && 200 * (a - b) + b == 2 * b * 100 + b) by (nonlinear_arith)
            requires
                a * 100 == 200 * b,
                b > 0,
        ;
        lemma_fundamental_div_mod_converse(2 * b * 100 + b, 2 * b, 100, b);
    } else {
        let m = -v;
        assert(b < a < 2 * b && 200 * b + (a - b) == 2 * (a - b) * m + (a - b)) by (nonlinear_arith)
            requires
                a * m == (m + 100) * b,
                m > 100,
                b > 0,
        ;
        lemma_fundamental_div_mod_converse(2 * (a - b) * m + (a - b), 2 * (a - b), m, a - b);
    }
}

} // verus!
