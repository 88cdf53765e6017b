use vstd::prelude::*;
use vstd::arithmetic::power::pow;
use crate::fraction::{
    all_probabilities, fraction_sum, gcd, gcd_u128, lemma_gcd_divides, lemma_reduce,
    lemma_reduced_sum, lemma_same_value_trans, lemma_term_at_most_sum, reduce, reduce_u128,
    reduced_sum, reduced_sum_fits, same_value, valid_probability,
};
use crate::market::{implied, market_total, MARKET_OVERFLOW};
use crate::probability::{ProbabilityOdds, ToProbability, PROBABILITY_RANGE};

verus! {

/// Each fraction of `ps` with its numerator scaled by `a` and its denominator by `b`.
pub open spec fn scaled(ps: Seq<(int, int)>, a: int, b: int) -> Seq<(int, int)> {
    ps.map_values(|p: (int, int)| (p.0 * a, p.1 * b))
}

/// Each implied probability `p` of `ps` divided by their sum `S`: `p / S`.
pub open spec fn basic_outputs(ps: Seq<(int, int)>) -> Seq<(int, int)> {
    scaled(ps, fraction_sum(ps).1, fraction_sum(ps).0)
}

/// The share of outcome `p` in a market whose total is `s`, that is `p / s`, with the common
/// factors of `p.0` and `s.0` and of `p.1` and `s.1` cancelled before multiplying.
pub open spec fn basic_entry(p: (int, int), s: (int, int)) -> (int, int) {
    let g1 = gcd(p.0 as nat, s.0 as nat) as int;
    let g2 = gcd(p.1 as nat, s.1 as nat) as int;
    ((p.0 / g1) * (s.1 / g2), (p.1 / g2) * (s.0 / g1))
}

/// The share of outcome `p` can be computed: its cancelled denominator fits in 128 bits, and
/// in lowest terms it fits the fields of a probability.
pub open spec fn basic_entry_fits(p: (int, int), s: (int, int)) -> bool {
    basic_entry(p, s).1 <= u128::MAX && reduce(basic_entry(p, s)).1 <= u64::MAX
}

/// The cancelled share has the value `p / f` for any `f` equal to the total `r`, and lies in
/// `[0, 1]` where `p / f` does.
pub proof fn lemma_basic_entry(p: (int, int), r: (int, int), f: (int, int))
    requires
        valid_probability(p),
        r.0 > 0,
        r.1 > 0,
        f.1 > 0,
        same_value(r, f),
        p.0 * f.1 <= p.1 * f.0,
    ensures
        0 <= basic_entry(p, r).0 <= basic_entry(p, r).1,
        0 < basic_entry(p, r).1,
        same_value(basic_entry(p, r), (p.0 * f.1, p.1 * f.0)),
{
    lemma_gcd_divides(p.0 as nat, r.0 as nat);
    lemma_gcd_divides(p.1 as nat, r.1 as nat);
    let g1 = gcd(p.0 as nat, r.0 as nat) as int;
    let g2 = gcd(p.1 as nat, r.1 as nat) as int;
    let (x, y, z, w) = (p.0 / g1, r.0 / g1, p.1 / g2, r.1 / g2);
    let e = basic_entry(p, r);
    assert(e == (x * w, z * y));
    assert(same_value(e, (p.0 * r.1, p.1 * r.0)) && z * y > 0 && x * w >= 0 && p.1 * r.0 > 0
        && f.0 > 0) by (nonlinear_arith)
        requires
            e == (x * w, z * y),
            g1 > 0,
            g2 > 0,
            p.0 == g1 * x,
            r.0 == g1 * y,
            p.1 == g2 * z,
            r.1 == g2 * w,
            p.0 >= 0,
            p.1 > 0,
            r.0 > 0,
            r.1 > 0,
            f.1 > 0,
            r.0 * f.1 == f.0 * r.1,
    ;
    assert(same_value((p.0 * r.1, p.1 * r.0), (p.0 * f.1, p.1 * f.0))) by (nonlinear_arith)
        requires
            r.0 * f.1 == f.0 * r.1,
    ;
    lemma_same_value_trans(e, (p.0 * r.1, p.1 * r.0), (p.0 * f.1, p.1 * f.0));
    assert(p.1 * f.0 > 0) by (nonlinear_arith)
        requires
            p.1 > 0,
            f.0 > 0,
    ;
    assert(e.0 <= e.1) by (nonlinear_arith)
        requires
            e.0 * (p.1 * f.0) == (p.0 * f.1) * e.1,
            p.0 * f.1 <= p.1 * f.0,
            p.1 * f.0 > 0,
            e.1 > 0,
    ;
}

/// Multiplicative devigging: every implied probability divided by the sum of them all, in
/// lowest terms. Fails where the market's probabilities are all zero, or where a share in
/// lowest terms does not fit a probability.
pub fn devig_basic<T: ToProbability>(odds: &[T]) -> (r: Result<Vec<ProbabilityOdds>, &'static str>)
    ensures
        !reduced_sum_fits(implied(odds@)) ==> r is Err && r->Err_0 == MARKET_OVERFLOW,
        reduced_sum_fits(implied(odds@)) && odds@.len() > 0 && reduced_sum(implied(odds@)).0 == 0
            ==> r is Err && r->Err_0 == PROBABILITY_RANGE,
        reduced_sum_fits(implied(odds@)) && (odds@.len() == 0 || reduced_sum(implied(odds@)).0 > 0)
            ==> (r is Ok <==> forall|i: int|
            0 <= i < odds@.len() ==> #[trigger] basic_entry_fits(
                implied(odds@)[i],
                reduced_sum(implied(odds@)),
            )),
        r is Ok ==> r->Ok_0@.len() == odds@.len() && forall|i: int|
            0 <= i < odds@.len() ==> same_value(
                #[trigger] r->Ok_0@[i].ratio(),
                basic_outputs(implied(odds@))[i],
            ),
        r is Err ==> r->Err_0 == MARKET_OVERFLOW || r->Err_0 == PROBABILITY_RANGE,
{
    let ghost ps = implied(odds@);
    let total = market_total(odds);
    if total.is_none() {
        return Err(MARKET_OVERFLOW);
    }
    let (num, den) = total.unwrap();
    if odds.len() > 0 && num == 0 {
        return Err(PROBABILITY_RANGE);
    }
    proof {
        lemma_reduced_sum(ps);
    }
    let ghost rs = reduced_sum(ps);
    let ghost fs = fraction_sum(ps);
    let ghost outs = basic_outputs(ps);
    let mut devigged: Vec<ProbabilityOdds> = Vec::new();
    let mut i: usize = 0;
    while i < odds.len()
        invariant
            0 <= i <= odds.len(),
            ps == implied(odds@),
            outs == basic_outputs(ps),
            rs == reduced_sum(ps),
            fs == fraction_sum(ps),
            (num as int, den as int) == rs,
            same_value(rs, fs),
            den > 0,
            fs.1 > 0,
            num > 0 || odds.len() == 0,
            all_probabilities(ps),
            ps.len() == odds.len(),
            outs.len() == odds.len(),
            devigged@.len() == i,
            forall|j: int| 0 <= j < i ==> #[trigger] basic_entry_fits(ps[j], rs),
            forall|j: int| 0 <= j < i ==> same_value(#[trigger] devigged@[j].ratio(), outs[j]),
        decreases odds.len() - i,
    {
        let p = odds[i].to_probability().unwrap();
        let n = p.numerator() as u128;
        let d = p.denominator() as u128;
        let g1 = gcd_u128(n, num);
        let g2 = gcd_u128(d, den);
        proof {
            assert(ps[i as int] == (n as int, d as int));
            lemma_gcd_divides(n as nat, num as nat);
            lemma_gcd_divides(d as nat, den as nat);
            lemma_term_at_most_sum(ps, i as int);
            lemma_basic_entry(ps[i as int], rs, fs);
        }
        proof {
            assert(basic_entry(ps[i as int], rs) == (((n / g1) as int) * ((den / g2) as int), ((d / g2) as int)
                * ((num / g1) as int)));
        }
        let y = (d / g2).checked_mul(num / g1);
        if y.is_none() {
            proof {
                assert(!basic_entry_fits(ps[i as int], rs));
            }
            return Err(MARKET_OVERFLOW);
        }
        let y = y.unwrap();
        let x = (n / g1) * (den / g2);
        let (xr, yr) = reduce_u128(x, y);
        proof {
            lemma_reduce((x as int, y as int));
        }
        proof {
            assert(basic_entry(ps[i as int], rs) == (x as int, y as int));
        }
        if yr > u64::MAX as u128 {
            proof {
                assert(!basic_entry_fits(ps[i as int], rs));
            }
            return Err(MARKET_OVERFLOW);
        }
        let q = ProbabilityOdds::new(xr as u64, yr as u64).unwrap();
        proof {
            lemma_reduce((xr as int, yr as int));
            lemma_same_value_trans(q.ratio(), (xr as int, yr as int), (x as int, y as int));
            lemma_same_value_trans(q.ratio(), (x as int, y as int), outs[i as int]);
        }
        let ghost before = devigged@;
        devigged.push(q);
        proof {
            assert forall|j: int| 0 <= j < i + 1 implies same_value(
                #[trigger] devigged@[j].ratio(),
                outs[j],
            ) by {
                if j < i {
                    assert(devigged@[j] == before[j]);
                }
            }
        }
        i = i + 1;
    }
    Ok(devigged)
}

/// The margin taken off each of `k` outcomes whose probabilities sum to `s`: `(s - 1) / k`,
/// in lowest terms, with the sign on the numerator.
pub open spec fn margin(s: (int, int), k: int) -> (int, int) {
    if s.0 >= s.1 {
        reduce((s.0 - s.1, s.1 * k))
    } else {
        let m = reduce((s.1 - s.0, s.1 * k));
        (-m.0, m.1)
    }
}

/// The probability `p` less the margin `m`, as a fraction `p.1 * m.1` in the denominator.
pub open spec fn shifted(p: (int, int), m: (int, int)) -> (int, int) {
    (p.0 * m.1 - m.0 * p.1, p.1 * m.1)
}

/// The devigged probability of outcome `p` after the margin `m`, in lowest terms; an error
/// where its denominator does not fit in 128 bits, where it lies outside `[0, 1]`, or where in
/// lowest terms it does not fit a probability.
pub open spec fn additive_entry(p: (int, int), m: (int, int)) -> Result<(int, int), &'static str> {
    let (x, y) = shifted(p, m);
    if y > u128::MAX {
        Err(MARKET_OVERFLOW)
    } else if x < 0 || x > y {
        Err(PROBABILITY_RANGE)
    } else if reduce((x, y)).1 > u64::MAX {
        Err(MARKET_OVERFLOW)
    } else {
        Ok(reduce((x, y)))
    }
}

/// `additive_entry` for the outcome `i` of the market `ps`.
pub open spec fn additive_at(ps: Seq<(int, int)>, i: int) -> Result<(int, int), &'static str> {
    additive_entry(ps[i], margin(reduced_sum(ps), ps.len() as int))
}

/// The market-wide part of additive devigging fits: the sum in lowest terms, and its
/// denominator times the number of outcomes.
pub open spec fn additive_fits(ps: Seq<(int, int)>) -> bool {
    reduced_sum_fits(ps) && reduced_sum(ps).1 * ps.len() <= u128::MAX
}

/// The exact value `p - (s - 1) / k`.
pub open spec fn additive_value(p: (int, int), s: (int, int), k: int) -> (int, int) {
    (p.0 * (s.1 * k) - (s.0 - s.1) * p.1, p.1 * (s.1 * k))
}

/// Taking off the reduced margin of the reduced total gives the exact value `p - (f - 1) / k`.
pub proof fn lemma_additive_value(p: (int, int), r: (int, int), f: (int, int), k: int)
    requires
        valid_probability(p),
        r.0 >= 0,
        r.1 > 0,
        f.1 > 0,
        same_value(r, f),
        k >= 1,
    ensures
        margin(r, k).1 > 0,
        shifted(p, margin(r, k)).1 > 0,
        same_value(shifted(p, margin(r, k)), additive_value(p, f, k)),
{
    let m = margin(r, k);
    let big = (f.0 - f.1, f.1 * k);
    assert(r.1 * k > 0) by (nonlinear_arith)
        requires
            r.1 > 0,
            k >= 1,
    ;
    if r.0 >= r.1 {
        lemma_reduce((r.0 - r.1, r.1 * k));
    } else {
        let q = reduce((r.1 - r.0, r.1 * k));
        lemma_reduce((r.1 - r.0, r.1 * k));
        assert(same_value(m, (r.0 - r.1, r.1 * k))) by (nonlinear_arith)
            requires
                m == (-q.0, q.1),
                q.0 * (r.1 * k) == (r.1 - r.0) * q.1,
        ;
    }
    assert((r.0 - r.1) * (f.1 * k) == (r.0 * f.1) * k - (r.1 * f.1) * k) by (nonlinear_arith);
    assert((f.0 - f.1) * (r.1 * k) == (f.0 * r.1) * k - (f.1 * r.1) * k) by (nonlinear_arith);
    lemma_same_value_trans(m, (r.0 - r.1, r.1 * k), big);
    let sh = shifted(p, m);
    let v = additive_value(p, f, k);
    assert(v == (p.0 * big.1 - big.0 * p.1, p.1 * big.1));
    lemma_shift_same_value(p.0, p.1, m.0, m.1, big.0, big.1);
    assert(sh.1 > 0) by (nonlinear_arith)
        requires
            sh.1 == p.1 * m.1,
            p.1 > 0,
            m.1 > 0,
    ;
}

/// Taking off two equal margins `m` and `b` gives equal results.
proof fn lemma_shift_same_value(p0: int, p1: int, m0: int, m1: int, b0: int, b1: int)
    requires
        m0 * b1 == b0 * m1,
    ensures
        (p0 * m1 - m0 * p1) * (p1 * b1) == (p0 * b1 - b0 * p1) * (p1 * m1),
{
    let t = p1 * b1;
    let u = p1 * m1;
    assert((p0 * m1 - m0 * p1) * t == p0 * m1 * t - m0 * p1 * t) by (nonlinear_arith);
    assert((p0 * b1 - b0 * p1) * u == p0 * b1 * u - b0 * p1 * u) by (nonlinear_arith);
    assert(p0 * m1 * t == p0 * b1 * u) by (nonlinear_arith)
        requires
            t == p1 * b1,
            u == p1 * m1,
    ;
    assert(m0 * p1 * t == (m0 * b1) * (p1 * p1)) by (nonlinear_arith)
        requires
            t == p1 * b1,
    ;
    assert(b0 * p1 * u == (b0 * m1) * (p1 * p1)) by (nonlinear_arith)
        requires
            u == p1 * m1,
    ;
}

/// Additive devigging: the market's margin, shared equally, taken off every implied probability,
/// each result in lowest terms. An empty market gives an empty result.
pub fn devig_additive<T: ToProbability>(odds: &[T]) -> (r: Result<Vec<ProbabilityOdds>, &'static str>)
    ensures
        !additive_fits(implied(odds@)) ==> r is Err && r->Err_0 == MARKET_OVERFLOW,
        additive_fits(implied(odds@)) ==> (r is Ok <==> forall|i: int|
            0 <= i < odds@.len() ==> #[trigger] additive_at(implied(odds@), i) is Ok),
        r is Ok ==> r->Ok_0@.len() == odds@.len() && forall|i: int|
            0 <= i < odds@.len() ==> same_value(
                #[trigger] r->Ok_0@[i].ratio(),
                additive_value(implied(odds@)[i], fraction_sum(implied(odds@)), odds@.len() as int),
            ),
        additive_fits(implied(odds@)) && r is Err ==> exists|i: int|
            0 <= i < odds@.len() && #[trigger] additive_at(implied(odds@), i) is Err
                && additive_at(implied(odds@), i)->Err_0 == r->Err_0
                && forall|j: int| 0 <= j < i ==> additive_at(implied(odds@), j) is Ok,
{
    let ghost ps = implied(odds@);
    if odds.len() == 0 {
        return Ok(Vec::new());
    }
    let total = market_total(odds);
    if total.is_none() {
        return Err(MARKET_OVERFLOW);
    }
    let (num, den) = total.unwrap();
    let k = odds.len() as u128;
    let dk = den.checked_mul(k);
    if dk.is_none() {
        return Err(MARKET_OVERFLOW);
    }
    let dk = dk.unwrap();
    proof {
        lemma_reduced_sum(ps);
        assert(dk > 0) by (nonlinear_arith)
            requires
                dk == den * k,
                den > 0,
                k >= 1,
        ;
    }
    let negative = num < den;
    let (mn, md) = if negative {
        reduce_u128(den - num, dk)
    } else {
        reduce_u128(num - den, dk)
    };
    let ghost rs = reduced_sum(ps);
    let ghost fs = fraction_sum(ps);
    let ghost m = margin(rs, ps.len() as int);
    let ghost kk = odds.len() as int;
    proof {
        assert(additive_fits(ps));
        assert(m == (if negative { -(mn as int) } else { mn as int }, md as int));
    }
    let mut devigged: Vec<ProbabilityOdds> = Vec::new();
    let mut i: usize = 0;
    while i < odds.len()
        invariant
            0 <= i <= odds.len(),
            k == odds.len(),
            kk == odds.len(),
            ps == implied(odds@),
            ps.len() == odds.len(),
            rs == reduced_sum(ps),
            fs == fraction_sum(ps),
            (num as int, den as int) == rs,
            same_value(rs, fs),
            den > 0,
            fs.1 > 0,
            m == margin(rs, kk),
            additive_fits(ps),
            m == (if negative { -(mn as int) } else { mn as int }, md as int),
            all_probabilities(ps),
            devigged@.len() == i,
            forall|j: int| 0 <= j < i ==> #[trigger] additive_at(ps, j) is Ok,
            forall|j: int| 0 <= j < i ==> same_value(
                #[trigger] devigged@[j].ratio(),
                additive_value(ps[j], fs, kk),
            ),
        decreases odds.len() - i,
    {
        let p = odds[i].to_probability().unwrap();
        let n = p.numerator() as u128;
        let d = p.denominator() as u128;
        let ghost e = additive_at(ps, i as int);
        let ghost sh = shifted(ps[i as int], m);
        proof {
            assert(ps[i as int] == (n as int, d as int));
            lemma_additive_value(ps[i as int], rs, fs, kk);
        }
        let y = d.checked_mul(md);
        if y.is_none() {
            return Err(MARKET_OVERFLOW);
        }
        let y = y.unwrap();
        proof {
            assert((n as int) * (md as int) <= y) by (nonlinear_arith)
                requires
                    y == (d as int) * (md as int),
                    n <= d,
            ;
        }
        let a = n * md;
        let b = mn.checked_mul(d);
        proof {
            assert(sh.1 == y);
            assert((-(mn as int)) * (d as int) == -((mn as int) * (d as int))) by (nonlinear_arith);
            if negative {
                assert(sh.0 == (n as int) * (md as int) + (mn as int) * (d as int));
            } else {
                assert(sh.0 == (n as int) * (md as int) - (mn as int) * (d as int));
            }
        }
        let x: u128;
        if negative {
            let c = match b {
                Some(b) => a.checked_add(b),
                None => None,
            };
            if c.is_none() || c.unwrap() > y {
                proof {
                    assert(sh.0 > sh.1) by (nonlinear_arith)
                        requires
                            sh.0 == (n as int) * (md as int) + (mn as int) * (d as int),
                            sh.1 == y,
                            y <= u128::MAX,
                            b is None ==> (mn as int) * (d as int) > u128::MAX,
                            b is Some ==> b->Some_0 == (mn as int) * (d as int),
                            b is Some && c is None ==> a + b->Some_0 > u128::MAX,
                            b is Some && c is Some ==> c->Some_0 == a + b->Some_0 && c->Some_0 > y,
                            a == (n as int) * (md as int),
                            a >= 0,
                    ;
                }
                return Err(PROBABILITY_RANGE);
            }
            x = c.unwrap();
        } else {
            if b.is_none() || b.unwrap() > a {
                proof {
                    assert(sh.0 < 0) by (nonlinear_arith)
                        requires
                            sh.0 == (n as int) * (md as int) - (mn as int) * (d as int),
                            a == (n as int) * (md as int),
                            a <= u128::MAX,
                            b is None ==> (mn as int) * (d as int) > u128::MAX,
                            b is Some ==> b->Some_0 == (mn as int) * (d as int) && b->Some_0 > a,
                    ;
                }
                return Err(PROBABILITY_RANGE);
            }
            x = a - b.unwrap();
            if x > y {
                return Err(PROBABILITY_RANGE);
            }
        }
        assert((x as int, y as int) == sh);
        let (xr, yr) = reduce_u128(x, y);
        proof {
            lemma_reduce((x as int, y as int));
        }
        if yr > u64::MAX as u128 {
            return Err(MARKET_OVERFLOW);
        }
        let q = ProbabilityOdds::new(xr as u64, yr as u64).unwrap();
        proof {
            lemma_reduce((xr as int, yr as int));
            lemma_same_value_trans(q.ratio(), (xr as int, yr as int), sh);
            lemma_same_value_trans(q.ratio(), sh, additive_value(ps[i as int], fs, kk));
        }
        let ghost before = devigged@;
        devigged.push(q);
        proof {
            assert forall|j: int| 0 <= j < i + 1 implies same_value(
                #[trigger] devigged@[j].ratio(),
                additive_value(ps[j], fs, kk),
            ) by {
                if j < i {
                    assert(devigged@[j] == before[j]);
                }
            }
        }
        i = i + 1;
    }
    Ok(devigged)
}

/// Scaling each numerator of `ps` by `a` and each denominator by `b` scales the sum's
/// denominator by `b` to the power of the length, and its numerator by `a` times one less power.
pub proof fn lemma_scaled_sum(ps: Seq<(int, int)>, a: int, b: int)
    ensures
        fraction_sum(scaled(ps, a, b)).0 * b == a * fraction_sum(ps).0 * pow(b, ps.len()),
        fraction_sum(scaled(ps, a, b)).1 == pow(b, ps.len()) * fraction_sum(ps).1,
    decreases ps.len(),
{
    reveal(pow);
    let qs = scaled(ps, a, b);
    if ps.len() == 0 {
        assert(fraction_sum(qs) == (0int, 1int));
        assert(fraction_sum(ps) == (0int, 1int));
        assert(a * 0 * pow(b, 0) == 0 && 0 * b == 0) by (nonlinear_arith);
    } else {
        let rest = ps.drop_last();
        assert(qs.drop_last() =~= scaled(rest, a, b));
        lemma_scaled_sum(rest, a, b);
        let k = rest.len();
        let s = fraction_sum(rest);
        let t = fraction_sum(scaled(rest, a, b));
        let p = ps.last();
        let w = pow(b, k);
        assert(qs.last() == (p.0 * a, p.1 * b));
        assert(pow(b, ps.len()) == b * w);
        let x = t.0 * (p.1 * b);
        let y = (p.0 * a) * t.1;
        assert(x * b == (t.0 * b) * (p.1 * b)) by (nonlinear_arith)
            requires
                x == t.0 * (p.1 * b),
        ;
        assert(y * b == (p.0 * a) * (w * s.1) * b) by (nonlinear_arith)
            requires
                y == (p.0 * a) * t.1,
                t.1 == w * s.1,
        ;
        assert((a * s.0 * w) * (p.1 * b) == a * (s.0 * p.1) * (b * w)) by (nonlinear_arith);
        assert((p.0 * a) * (w * s.1) * b == a * (p.0 * s.1) * (b * w)) by (nonlinear_arith);
        assert(a * (s.0 * p.1) * (b * w) + a * (p.0 * s.1) * (b * w) == a * (s.0 * p.1 + p.0 * s.1)
            * (b * w)) by (nonlinear_arith);
        assert((x + y) * b == x * b + y * b) by (nonlinear_arith);
        assert((w * s.1) * (p.1 * b) == (b * w) * (s.1 * p.1)) by (nonlinear_arith);
        assert(fraction_sum(qs) == (x + y, t.1 * (p.1 * b)));
        assert(fraction_sum(ps) == (s.0 * p.1 + p.0 * s.1, s.1 * p.1));
        assert(x * b == (a * s.0 * w) * (p.1 * b));
        assert((x + y) * b == a * (s.0 * p.1 + p.0 * s.1) * (b * w));
    }
}

/// The probabilities that multiplicative devigging gives sum to exactly one, for every market
/// of valid probabilities whose sum is positive.
pub proof fn lemma_devig_basic_sums_to_one(ps: Seq<(int, int)>)
    requires
        all_probabilities(ps),
        fraction_sum(ps).0 > 0,
    ensures
        same_value(fraction_sum(basic_outputs(ps)), (1, 1)),
{
    let s = fraction_sum(ps);
    lemma_scaled_sum(ps, s.1, s.0);
    let t = fraction_sum(basic_outputs(ps));
    let w = pow(s.0, ps.len());
    assert(t.0 == t.1) by (nonlinear_arith)
        requires
            t.0 * s.0 == s.1 * s.0 * w,
            t.1 == w * s.1,
            s.0 > 0,
    ;
}

/// Additive devigging rejects an outcome whose implied probability lies below the margin that
/// it takes off each outcome, as out of range wherever the outcome's fraction can be formed.
pub proof fn lemma_additive_rejects_below_margin(ps: Seq<(int, int)>, i: int)
    requires
        all_probabilities(ps),
        0 <= i < ps.len(),
        (fraction_sum(ps).0 - fraction_sum(ps).1) * ps[i].1 > ps[i].0 * fraction_sum(ps).1
            * ps.len(),
    ensures
        additive_at(ps, i) is Err,
        shifted(ps[i], margin(reduced_sum(ps), ps.len() as int)).1 <= u128::MAX ==> additive_at(
            ps,
            i,
        ) == Err::<(int, int), &'static str>(PROBABILITY_RANGE),
{
    lemma_reduced_sum(ps);
    let f = fraction_sum(ps);
    let k = ps.len() as int;
    let p = ps[i];
    assert(valid_probability(ps[i]));
    lemma_additive_value(p, reduced_sum(ps), f, k);
    let sh = shifted(p, margin(reduced_sum(ps), k));
    let v = additive_value(p, f, k);
    assert(v.0 < 0 && v.1 > 0) by (nonlinear_arith)
        requires
            v == (p.0 * (f.1 * k) - (f.0 - f.1) * p.1, p.1 * (f.1 * k)),
            (f.0 - f.1) * p.1 > p.0 * f.1 * k,
            p.1 > 0,
            f.1 > 0,
            k >= 1,
    ;
    assert(sh.0 < 0) by (nonlinear_arith)
        requires
            sh.0 * v.1 == v.0 * sh.1,
            v.0 < 0,
            v.1 > 0,
            sh.1 > 0,
    ;
}

} // verus!
