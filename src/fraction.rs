use vstd::prelude::*;
use vstd::arithmetic::div_mod::{lemma_div_multiples_vanish, lemma_fundamental_div_mod};

verus! {

/// Two fractions `(numerator, denominator)` with positive denominators stand for the same number.
pub open spec fn same_value(a: (int, int), b: (int, int)) -> bool {
    a.0 * b.1 == b.0 * a.1
}

/// A fraction that is a probability and fits the fields of a probability: `0 <= n <= d`, `d > 0`.
pub open spec fn valid_probability(p: (int, int)) -> bool {
    0 <= p.0 <= p.1 && 0 < p.1 <= u64::MAX
}

/// A fraction that is decimal odds and fits the fields of decimal odds: `0 < d <= n`.
pub open spec fn valid_decimal(q: (int, int)) -> bool {
    0 < q.1 <= q.0 <= u64::MAX
}

/// The integer nearest to `n / d` for `n >= 0` and `d > 0`, a half rounded up (away from zero).
pub open spec fn round_half_away(n: int, d: int) -> int {
    (2 * n + d) / (2 * d)
}

/// A product of two factors in `[0, x]` and `[0, y]` lies in `[0, x * y]`.
pub proof fn lemma_mul_bounds(a: int, b: int, x: int, y: int)
    requires
        0 <= a <= x,
        0 <= b <= y,
    ensures
        0 <= a * b <= x * y,
{
    assert(0 <= a * b <= x * y) by (nonlinear_arith)
        requires
            0 <= a <= x,
            0 <= b <= y,
    ;
}

/// The sum of the fractions in `ps`, over the product of their denominators (not reduced).
pub open spec fn fraction_sum(ps: Seq<(int, int)>) -> (int, int)
    decreases ps.len(),
{
    if ps.len() == 0 {
        (0, 1)
    } else {
        let s = fraction_sum(ps.drop_last());
        let p = ps.last();
        (s.0 * p.1 + p.0 * s.1, s.1 * p.1)
    }
}

/// The sum of the fractions in `ps`, brought to lowest terms after each addition.
pub open spec fn reduced_sum(ps: Seq<(int, int)>) -> (int, int)
    decreases ps.len(),
{
    if ps.len() == 0 {
        (0, 1)
    } else {
        let s = reduced_sum(ps.drop_last());
        let p = ps.last();
        reduce((s.0 * p.1 + p.0 * s.1, s.1 * p.1))
    }
}

/// Each addition that `reduced_sum` makes fits in 128 bits before it is reduced.
pub open spec fn reduced_sum_fits(ps: Seq<(int, int)>) -> bool
    decreases ps.len(),
{
    ps.len() == 0 || (reduced_sum_fits(ps.drop_last()) && reduced_sum(ps.drop_last()).0 * ps.last().1
        + ps.last().0 * reduced_sum(ps.drop_last()).1 <= u128::MAX && reduced_sum(ps.drop_last()).1
        * ps.last().1 <= u128::MAX)
}

/// Where a sum fits, so does the sum of each prefix.
pub proof fn lemma_reduced_sum_fits_prefix(ps: Seq<(int, int)>, k: int)
    requires
        reduced_sum_fits(ps),
        0 <= k <= ps.len(),
    ensures
        reduced_sum_fits(ps.take(k)),
    decreases ps.len(),
{
    if k == ps.len() {
        assert(ps.take(k) =~= ps);
    } else {
        assert(ps.drop_last().take(k) =~= ps.take(k));
        lemma_reduced_sum_fits_prefix(ps.drop_last(), k);
    }
}

/// The sum in lowest terms has the value of the plain sum, with a positive denominator.
pub proof fn lemma_reduced_sum(ps: Seq<(int, int)>)
    requires
        all_probabilities(ps),
    ensures
        same_value(reduced_sum(ps), fraction_sum(ps)),
        reduced_sum(ps).0 >= 0,
        reduced_sum(ps).1 > 0,
        fraction_sum(ps).0 >= 0,
        fraction_sum(ps).1 > 0,
    decreases ps.len(),
{
    lemma_fraction_sum_sign(ps);
    if ps.len() > 0 {
        let rest = ps.drop_last();
        assert(all_probabilities(rest)) by {
            assert forall|i: int| 0 <= i < rest.len() implies valid_probability(#[trigger] rest[i]) by {
                assert(rest[i] == ps[i]);
            }
        }
        lemma_reduced_sum(rest);
        let r = reduced_sum(rest);
        let f = fraction_sum(rest);
        let p = ps.last();
        assert(valid_probability(ps[ps.len() - 1]));
        let u = (r.0 * p.1 + p.0 * r.1, r.1 * p.1);
        assert(u.0 >= 0 && u.1 > 0 && same_value(u, fraction_sum(ps))) by (nonlinear_arith)
            requires
                u == (r.0 * p.1 + p.0 * r.1, r.1 * p.1),
                fraction_sum(ps) == (f.0 * p.1 + p.0 * f.1, f.1 * p.1),
                r.0 * f.1 == f.0 * r.1,
                r.0 >= 0,
                r.1 > 0,
                f.1 > 0,
                0 <= p.0 <= p.1,
                p.1 > 0,
        ;
        lemma_reduce(u);
        lemma_same_value_trans(reduced_sum(ps), u, fraction_sum(ps));
    }
}

/// Every fraction in `ps` is a valid probability.
pub open spec fn all_probabilities(ps: Seq<(int, int)>) -> bool {
    forall|i: int| 0 <= i < ps.len() ==> valid_probability(#[trigger] ps[i])
}

/// A sum of probabilities has a nonnegative numerator and a positive denominator.
pub proof fn lemma_fraction_sum_sign(ps: Seq<(int, int)>)
    requires
        all_probabilities(ps),
    ensures
        fraction_sum(ps).0 >= 0,
        fraction_sum(ps).1 > 0,
    decreases ps.len(),
{
    if ps.len() > 0 {
        let rest = ps.drop_last();
        assert(all_probabilities(rest)) by {
            assert forall|i: int| 0 <= i < rest.len() implies valid_probability(#[trigger] rest[i]) by {
                assert(rest[i] == ps[i]);
            }
        }
        lemma_fraction_sum_sign(rest);
        let s = fraction_sum(rest);
        let p = ps.last();
        assert(valid_probability(ps[ps.len() - 1]));
        assert(s.0 * p.1 + p.0 * s.1 >= 0 && s.1 * p.1 > 0) by (nonlinear_arith)
            requires
                s.0 >= 0,
                s.1 > 0,
                0 <= p.0 <= p.1,
                p.1 > 0,
        ;
    }
}

/// No probability of a sum exceeds the sum: `n / d <= N / D` for each `n / d` of `ps`.
pub proof fn lemma_term_at_most_sum(ps: Seq<(int, int)>, i: int)
    requires
        all_probabilities(ps),
        0 <= i < ps.len(),
    ensures
        ps[i].0 * fraction_sum(ps).1 <= ps[i].1 * fraction_sum(ps).0,
    decreases ps.len(),
{
    let rest = ps.drop_last();
    assert(all_probabilities(rest)) by {
        assert forall|j: int| 0 <= j < rest.len() implies valid_probability(#[trigger] rest[j]) by {
            assert(rest[j] == ps[j]);
        }
    }
    lemma_fraction_sum_sign(rest);
    let s = fraction_sum(rest);
    let p = ps.last();
    let q = ps[i];
    assert(valid_probability(ps[ps.len() - 1]));
    assert(valid_probability(ps[i]));
    if i == ps.len() - 1 {
        assert(q.0 * (s.1 * p.1) <= q.1 * (s.0 * p.1 + p.0 * s.1)) by (nonlinear_arith)
            requires
                q == p,
                s.0 >= 0,
                s.1 > 0,
                0 <= p.0 <= p.1,
        ;
    } else {
        lemma_term_at_most_sum(rest, i);
        assert(rest[i] == q);
        assert(q.0 * (s.1 * p.1) <= q.1 * (s.0 * p.1 + p.0 * s.1)) by (nonlinear_arith)
            requires
                q.0 * s.1 <= q.1 * s.0,
                s.1 > 0,
                0 <= q.0 <= q.1,
                0 <= p.0 <= p.1,
        ;
    }
}

/// The greatest common divisor of `a` and `b`, by Euclid's algorithm.
pub open spec fn gcd(a: nat, b: nat) -> nat
    decreases b,
{
    if b == 0 {
        a
    } else {
        gcd(b, a % b)
    }
}

/// The greatest common divisor divides both numbers, and is positive unless both are zero.
pub proof fn lemma_gcd_divides(a: nat, b: nat)
    ensures
        (a > 0 || b > 0) ==> gcd(a, b) > 0,
        gcd(a, b) > 0 ==> a == gcd(a, b) * (a / gcd(a, b)) && b == gcd(a, b) * (b / gcd(a, b)),
    decreases b,
{
    if b == 0 {
        if a > 0 {
            lemma_div_multiples_vanish(1, a as int);
            assert(a / a == 1);
            assert(0nat / a == 0);
        }
    } else {
        let r = a % b;
        lemma_gcd_divides(b, r);
        let g = gcd(b, r) as int;
        let (ai, bi, ri) = (a as int, b as int, r as int);
        lemma_fundamental_div_mod(ai, bi);
        assert(ri == ai % bi);
        let qb = bi / g;
        let qr = ri / g;
        let qa = ai / bi;
        assert(bi == g * qb && ri == g * qr);
        let k = qb * qa + qr;
        assert(ai == g * k) by (nonlinear_arith)
            requires
                ai == bi * qa + ri,
                bi == g * qb,
                ri == g * qr,
                k == qb * qa + qr,
        ;
        lemma_div_multiples_vanish(k, g);
        assert(gcd(a, b) == g);
    }
}

/// The fraction `f` in lowest terms: both parts divided by their greatest common divisor.
pub open spec fn reduce(f: (int, int)) -> (int, int) {
    let g = gcd(f.0 as nat, f.1 as nat) as int;
    (f.0 / g, f.1 / g)
}

/// Reducing keeps the value and the sign, and makes neither part larger.
pub proof fn lemma_reduce(f: (int, int))
    requires
        f.0 >= 0,
        f.1 > 0,
    ensures
        same_value(reduce(f), f),
        0 <= reduce(f).0 <= f.0,
        0 < reduce(f).1 <= f.1,
        f.0 <= f.1 ==> reduce(f).0 <= reduce(f).1,
        f.0 >= f.1 ==> reduce(f).0 >= reduce(f).1,
{
    lemma_gcd_divides(f.0 as nat, f.1 as nat);
    let g = gcd(f.0 as nat, f.1 as nat) as int;
    let (a, b) = reduce(f);
    assert(a * f.1 == f.0 * b && 0 <= a <= f.0 && 0 < b <= f.1 && (f.0 <= f.1 ==> a <= b) && (
    f.0 >= f.1 ==> a >= b)) by (nonlinear_arith)
        requires
            g > 0,
            f.0 == g * a,
            f.1 == g * b,
            f.0 >= 0,
            f.1 > 0,
    ;
}

/// Two values equal to a third are equal to each other.
pub proof fn lemma_same_value_trans(a: (int, int), b: (int, int), c: (int, int))
    requires
        same_value(a, b),
        same_value(b, c),
        b.1 > 0,
    ensures
        same_value(a, c),
{
    assert(a.0 * c.1 == c.0 * a.1) by (nonlinear_arith)
        requires
            a.0 * b.1 == b.0 * a.1,
            b.0 * c.1 == c.0 * b.1,
            b.1 > 0,
    ;
}

/// The greatest common divisor of `a` and `b`.
pub fn gcd_u128(a: u128, b: u128) -> (g: u128)
    ensures
        g == gcd(a as nat, b as nat),
{
    let mut x = a;
    let mut y = b;
    while y != 0
        invariant
            gcd(x as nat, y as nat) == gcd(a as nat, b as nat),
        decreases y,
    {
        let r = x % y;
        x = y;
        y = r;
    }
    x
}

/// The fraction `n / d` in lowest terms.
pub fn reduce_u128(n: u128, d: u128) -> (r: (u128, u128))
    requires
        d > 0,
    ensures
        (r.0 as int, r.1 as int) == reduce((n as int, d as int)),
{
    let g = gcd_u128(n, d);
    proof {
        lemma_gcd_divides(n as nat, d as nat);
    }
    (n / g, d / g)
}

/// A signed fraction: `numerator / denominator`, negated when `negative` is set.
#[derive(Debug, Clone, Copy)]
pub struct Fraction {
    pub negative: bool,
    pub numerator: u128,
    pub denominator: u128,
}

impl Fraction {
    /// The fraction as `(numerator, denominator)` with the sign on the numerator.
    pub open spec fn value(self) -> (int, int) {
        (if self.negative {
            -self.numerator
        } else {
            self.numerator as int
        }, self.denominator as int)
    }

    /// The fraction `a / d - b / d`.
    pub fn difference(a: u128, b: u128, d: u128) -> (r: Self)
        ensures
            r.value() == (a - b, d as int),
    {
        if a >= b {
            Fraction { negative: false, numerator: a - b, denominator: d }
        } else {
            Fraction { negative: true, numerator: b - a, denominator: d }
        }
    }
}

} // verus!
