use vstd::prelude::*;
use crate::decimal::DecimalOdds;
use crate::fraction::{lemma_mul_bounds, Fraction};
use crate::probability::ProbabilityOdds;

verus! {

/// Message of the error for a Kelly stake at decimal odds of 1, which pay nothing on a win.
pub const KELLY_NO_PAYOUT: &'static str = "Kelly stake needs decimal odds greater than 1";

/// The Kelly stake `p - (1 - p) / (q - 1)`, that is `(p * q - 1) / (q - 1)`, for the win
/// probability `p` and the decimal payout `q`, whose net odds are `q - 1`.
pub open spec fn kelly_fraction(p: (int, int), q: (int, int)) -> (int, int) {
    (p.0 * q.0 - p.1 * q.1, p.1 * (q.0 - q.1))
}

/// The fraction of a bankroll to stake, negative where no bet is favourable; an error at
/// decimal odds of exactly 1, where the net odds are zero.
pub fn kelly_criterion(win_prob: ProbabilityOdds, to_win: DecimalOdds) -> (r: Result<
    Fraction,
    &'static str,
>)
    ensures
        r is Ok <==> to_win.ratio().0 != to_win.ratio().1,
        r is Ok ==> r->Ok_0.value() == kelly_fraction(win_prob.ratio(), to_win.ratio()),
        r is Err ==> r->Err_0 == KELLY_NO_PAYOUT,
{
    let a = win_prob.numerator() as u128;
    let b = win_prob.denominator() as u128;
    let c = to_win.numerator() as u128;
    let e = to_win.denominator() as u128;
    if c == e {
        return Err(KELLY_NO_PAYOUT);
    }
    proof {
        lemma_mul_bounds(a as int, c as int, u64::MAX as int, u64::MAX as int);
        lemma_mul_bounds(b as int, e as int, u64::MAX as int, u64::MAX as int);
        lemma_mul_bounds(b as int, (c - e) as int, u64::MAX as int, u64::MAX as int);
    }
    Ok(Fraction::difference(a * c, b * e, b * (c - e)))
}

} // verus!
