use vstd::prelude::*;
use crate::american::AmericanOdds;
use crate::fraction::{
    all_probabilities, fraction_sum, lemma_reduce, lemma_reduced_sum, lemma_reduced_sum_fits_prefix,
    reduce, reduce_u128, reduced_sum, reduced_sum_fits, same_value, valid_probability, Fraction,
};
use crate::probability::ToProbability;

verus! {

/// Message of the error for a market whose exact values do not fit the integers that hold them.
pub const MARKET_OVERFLOW: &'static str = "Market too large to compute exactly";

/// The implied probabilities of a market, in order.
pub open spec fn implied<T: ToProbability>(odds: Seq<T>) -> Seq<(int, int)> {
    odds.map_values(|o: T| o.probability_of())
}

/// The sum of the market's implied probabilities in lowest terms, where each addition fits.
pub(crate) fn market_total<T: ToProbability>(odds: &[T]) -> (r: Option<(u128, u128)>)
    ensures
        r is Some <==> reduced_sum_fits(implied(odds@)),
        r is Some ==> (r->Some_0.0 as int, r->Some_0.1 as int) == reduced_sum(implied(odds@)),
        r is Some ==> all_probabilities(implied(odds@)),
{
    let ghost ps = implied(odds@);
    let mut num: u128 = 0;
    let mut den: u128 = 1;
    let mut i: usize = 0;
    while i < odds.len()
        invariant
            0 <= i <= odds.len(),
            ps == implied(odds@),
            reduced_sum_fits(ps.take(i as int)),
            (num as int, den as int) == reduced_sum(ps.take(i as int)),
            den > 0,
            forall|j: int| 0 <= j < i ==> valid_probability(#[trigger] ps[j]),
        decreases odds.len() - i,
    {
        let p = odds[i].to_probability().unwrap();
        let n = p.numerator() as u128;
        let d = p.denominator() as u128;
        let ghost next = ps.take(i + 1);
        proof {
            assert(next.drop_last() =~= ps.take(i as int));
            assert(next.last() == ps[i as int]);
        }
        let a = num.checked_mul(d);
        let b = n.checked_mul(den);
        if a.is_none() || b.is_none() {
            proof {
                assert(0 <= (n as int) * (den as int)) by (nonlinear_arith);
                assert(0 <= (num as int) * (d as int)) by (nonlinear_arith);
                if reduced_sum_fits(ps) {
                    lemma_reduced_sum_fits_prefix(ps, i + 1);
                }
            }
            return None;
        }
        let c = a.unwrap().checked_add(b.unwrap());
        let e = den.checked_mul(d);
        if c.is_none() || e.is_none() {
            proof {
                if reduced_sum_fits(ps) {
                    lemma_reduced_sum_fits_prefix(ps, i + 1);
                }
            }
            return None;
        }
        proof {
            assert((den as int) * (d as int) > 0) by (nonlinear_arith)
                requires
                    den > 0,
                    d > 0,
            ;
        }
        let (rn, rd) = reduce_u128(c.unwrap(), e.unwrap());
        proof {
            lemma_reduce((c.unwrap() as int, e.unwrap() as int));
        }
        num = rn;
        den = rd;
        i = i + 1;
    }
    proof {
        assert(ps.take(i as int) =~= ps);
    }
    Some((num, den))
}

/// The hold of a market: the sum of its implied probabilities, less one.
pub fn calculate_hold<T: ToProbability>(odds: &[T]) -> (r: Result<Fraction, &'static str>)
    ensures
        r is Ok <==> reduced_sum_fits(implied(odds@)),
        r is Ok ==> r->Ok_0.value() == (reduced_sum(implied(odds@)).0 - reduced_sum(
            implied(odds@),
        ).1, reduced_sum(implied(odds@)).1),
        r is Ok ==> same_value(
            r->Ok_0.value(),
            (fraction_sum(implied(odds@)).0 - fraction_sum(implied(odds@)).1, fraction_sum(
                implied(odds@),
            ).1),
        ),
        r is Err ==> r->Err_0 == MARKET_OVERFLOW,
{
    match market_total(odds) {
        Some((num, den)) => {
            proof {
                let f = fraction_sum(implied(odds@));
                lemma_reduced_sum(implied(odds@));
                assert(((num as int) - (den as int)) * f.1 == (f.0 - f.1) * (den as int))
                    by (nonlinear_arith)
                    requires
                        (num as int) * f.1 == f.0 * (den as int),
                ;
            }
            Ok(Fraction::difference(num, den, den))
        },
        None => Err(MARKET_OVERFLOW),
    }
}

/// A market of the two lines `-x` and `x` has no hold: its implied probabilities sum to one,
/// so the numerator of `calculate_hold`'s result is zero.
pub proof fn lemma_mirrored_lines_no_hold(odds: Seq<AmericanOdds>)
    requires
        odds.len() == 2,
        odds[1].value >= 100,
        odds[0].value == -odds[1].value,
    ensures
        fraction_sum(implied(odds)).0 == fraction_sum(implied(odds)).1,
        reduced_sum(implied(odds)).0 == reduced_sum(implied(odds)).1,
{
    let x = odds[1].value as int;
    let ps = implied(odds);
    lemma_reduce((x, x + 100));
    lemma_reduce((100, x + 100));
    assert(ps[0] == reduce((x, x + 100)));
    assert(ps[1] == reduce((100, x + 100)));
    let (a, b) = ps[0];
    let (c, e) = ps[1];
    let front = ps.drop_last();
    assert(front.len() == 1 && front[0] == ps[0]);
    assert(front.drop_last() =~= Seq::<(int, int)>::empty());
    assert(fraction_sum(front.drop_last()) == (0int, 1int));
    assert(fraction_sum(front) == (0 * b + a * 1, 1 * b));
    assert(fraction_sum(ps) == (a * e + c * b, b * e));
    assert(a * e + c * b == b * e) by (nonlinear_arith)
        requires
            a * (x + 100) == x * b,
            c * (x + 100) == 100 * e,
            x >= 100,
    ;
    assert(all_probabilities(ps)) by {
        assert forall|i: int| 0 <= i < ps.len() implies valid_probability(#[trigger] ps[i]) by {
            assert(i == 0 || i == 1);
        }
    }
    lemma_reduced_sum(ps);
    let r = reduced_sum(ps);
    let f = fraction_sum(ps);
    assert(r.0 == r.1) by (nonlinear_arith)
        requires
            r.0 * f.1 == f.0 * r.1,
            f.0 == f.1,
            f.1 > 0,
    ;
}

} // verus!
