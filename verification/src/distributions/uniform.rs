//! The continuous uniform distribution on an interval.

use vstd::prelude::*;

verus! {

use crate::ratio::{
    lemma_frac_le_subst, lemma_frac_le_trans, lemma_frac_lt_le_trans, lemma_frac_lt_trans,
    lemma_mul_bound, lemma_mul_pos, Rat, Ratio, PART_LIMIT,
};
use crate::{Distribution, RandomSource};

/// A continuous uniform distribution on an interval [`a`, `b`].
pub struct Uniform {
    /// The left endpoint of the support.
    pub a: Ratio,
    /// The right endpoint of the support.
    pub b: Ratio,
}

/// The exact cumulative distribution function of the uniform distribution on
/// [`a`, `b`]: a ramp that is zero up to `a`, one from `b` on, and linear in
/// between. The branches are ordered so that the quotient is reached only
/// when `a < x < b`, which forces `a < b` and keeps the quotient's
/// denominator positive; in particular a degenerate interval `a == b` never
/// divides by zero.
pub open spec fn uniform_cdf(a: Rat, b: Rat, x: Rat) -> Rat {
    if x.le(a) {
        Rat::zero()
    } else if b.le(x) {
        Rat::one()
    } else {
        x.minus(a).divided_by(b.minus(a))
    }
}

/// The exact quantile function of the uniform distribution on [`a`, `b`]:
/// the linear interpolation `a + (b - a) * p`, with no clamping of `p`, so
/// that probabilities outside [0, 1] extrapolate beyond the interval.
pub open spec fn uniform_inv_cdf(a: Rat, b: Rat, p: Rat) -> Rat {
    a.plus(b.minus(a).times(p))
}

impl Uniform {
    /// Creates a uniform distribution on the interval [`a`, `b`]. The
    /// endpoints are stored verbatim; nothing checks `a <= b`, and an
    /// inverted interval gives well-defined arithmetic without the
    /// monotonicity of a proper distribution.
    pub fn new(a: Ratio, b: Ratio) -> (u: Uniform)
        ensures
            u.a == a,
            u.b == b,
    {
        Uniform { a, b }
    }
}

/// On an interval with `a <= b`, the linear interpolation at a probability
/// in [0, 1) lies within the interval.
pub proof fn lemma_interp_bounds(a: Rat, b: Rat, u: Rat)
    requires
        a.valid(),
        b.valid(),
        u.valid(),
        a.le(b),
        Rat::zero().le(u),
        u.lt(Rat::one()),
    ensures
        uniform_inv_cdf(a, b, u).valid(),
        a.le(uniform_inv_cdf(a, b, u)),
        uniform_inv_cdf(a, b, u).le(b),
{
    let y = uniform_inv_cdf(a, b, u);
    let an = a.num;
    let ad = a.den;
    let bn = b.num;
    let bd = b.den;
    let un = u.num;
    let ud = u.den;
    assert(y.num == an * ((bd * ad) * ud) + ((bn * ad - an * bd) * un) * ad);
    assert(y.den == ad * ((bd * ad) * ud));
    lemma_mul_pos(bd, ad);
    lemma_mul_pos(bd * ad, ud);
    lemma_mul_pos(ad, (bd * ad) * ud);
    assert(an * (ad * ((bd * ad) * ud)) <= (an * ((bd * ad) * ud) + ((bn * ad - an * bd) * un)
        * ad) * ad) by (nonlinear_arith)
        requires
            0 < ad,
            0 < bd,
            0 < ud,
            an * bd <= bn * ad,
            0 <= un,
    ;
    assert((an * ((bd * ad) * ud) + ((bn * ad - an * bd) * un) * ad) * bd <= bn * (ad * ((bd * ad)
        * ud))) by (nonlinear_arith)
        requires
            0 < ad,
            0 < bd,
            0 < ud,
            an * bd <= bn * ad,
            0 <= un,
            un < ud,
    ;
}

/// The increment of the interpolation over its left endpoint: written with
/// the parts of `a`, `b` and `p`, the cross-multiplied difference
/// `inv_cdf(p) - a` collapses to `(b - a)'s numerator * p's numerator`,
/// scaled by the square of `a`'s denominator.
proof fn lemma_interp_increment(an: int, ad: int, bn: int, bd: int, pn: int, pd: int)
    by (nonlinear_arith)
    ensures
        (an * ((bd * ad) * pd) + ((bn * ad - an * bd) * pn) * ad) * ad - an * (ad * ((bd * ad)
            * pd)) == ((bn * ad - an * bd) * pn) * (ad * ad),
{
}

/// Pulling a common factor to the front of a product.
proof fn lemma_pull_scale(k: int, x: int, y: int)
    by (nonlinear_arith)
    ensures
        x * (k * y) == k * (x * y),
        (k * x) * y == k * (x * y),
{
}

/// Cancelling a positive common factor across a comparison.
proof fn lemma_cancel_le(k: int, x: int, y: int)
    by (nonlinear_arith)
    requires
        0 < k,
    ensures
        (k * x <= k * y) == (x <= y),
        (x * k <= y * k) == (x <= y),
{
}

/// A product of a non-negative and a positive factor is non-negative.
proof fn lemma_mul_nonneg(e: int, k: int)
    by (nonlinear_arith)
    requires
        0 <= e,
        0 < k,
    ensures
        0 <= e * k,
{
}

/// Reassociating the five factors of a cross-multiplied ramp comparison.
proof fn lemma_shuffle_ramp(t: int, c: int, y: int, a: int, r: int)
    by (nonlinear_arith)
    ensures
        (t * c) * ((y * a) * r) == (t * y) * (c * (a * r)),
{
}

/// A product `(r * n) * (a * a)` that is at most zero with `r` and `a`
/// positive forces `n` at most zero.
proof fn lemma_nonpos_factor(r: int, n: int, a: int)
    by (nonlinear_arith)
    requires
        (r * n) * (a * a) <= 0,
        0 < r,
        0 < a,
    ensures
        n <= 0,
{
}

/// A product `(r * m) * c` that is at least zero with `r` and `c` positive
/// forces `m` at least zero.
proof fn lemma_nonneg_factor(r: int, m: int, c: int)
    by (nonlinear_arith)
    requires
        0 <= (r * m) * c,
        0 < r,
        0 < c,
    ensures
        0 <= m,
{
}

/// Associativity shape used when the round trip lands strictly inside the
/// interval.
proof fn lemma_round_trip_mid(r: int, n: int, a: int, c: int, d: int)
    by (nonlinear_arith)
    ensures
        (((r * n) * (a * a)) * (c * a)) * d == n * ((((a * ((c * a) * d)) * a)) * r),
{
}

/// Associativity shape used for the slope of the interpolation.
proof fn lemma_affine_mid(r: int, n: int, a: int, c: int, d: int)
    by (nonlinear_arith)
    ensures
        ((r * n) * (a * a)) * ((c * a) * d) == (r * n) * ((a * ((c * a) * d)) * a),
{
}

/// The overshoot of the interpolation past the right endpoint, after one
/// factor of `a`'s denominator has been cancelled: the cross-multiplied
/// difference collapses to `(b - a)'s numerator * (p - 1)'s numerator`,
/// scaled by `b`'s denominator.
proof fn lemma_overshoot_scaled(an: int, ad: int, bn: int, bd: int, pn: int, pd: int)
    ensures
        (an * (bd * pd) + (bn * ad - an * bd) * pn) * bd - bn * (ad * (bd * pd)) == ((bn * ad - an
            * bd) * (pn - pd)) * bd,
{
    let s = bd * pd;
    let m = bn * ad - an * bd;
    lemma_distrib(an * s, m * pn, bd);
    lemma_shuffle(an, s, bd, bn, ad);
    lemma_distrib(0, m, s);
    lemma_swap(m, bd, pd);
    lemma_distrib(m, pn, pd);
    lemma_distrib(m * pn, m * pd, bd);
}

/// Distributivity shapes.
proof fn lemma_distrib(u: int, v: int, w: int)
    by (nonlinear_arith)
    ensures
        (u + v) * w == u * w + v * w,
        (u - v) * w == u * w - v * w,
        u * (v - w) == u * v - u * w,
{
}

/// A common inner factor can be pulled out of a difference of products.
proof fn lemma_shuffle(x: int, s: int, w: int, y: int, z: int)
    by (nonlinear_arith)
    ensures
        (x * s) * w - y * (z * s) == (x * w - y * z) * s,
{
}

/// Swapping the order in which two factors are applied.
proof fn lemma_swap(x: int, y: int, z: int)
    by (nonlinear_arith)
    ensures
        x * (y * z) == (x * z) * y,
{
}

/// The cumulative distribution function saturates outside the support: on an
/// interval with `a <= b` it is zero up to `a` and, strictly above `a`, one
/// from `b` on. (On a degenerate interval the boundary point `x == a == b`
/// falls under the first clause and yields zero.)
pub proof fn lemma_cdf_saturates(a: Rat, b: Rat, x: Rat)
    requires
        a.valid(),
        b.valid(),
        x.valid(),
        a.le(b),
    ensures
        x.le(a) ==> uniform_cdf(a, b, x).eqv(Rat::zero()),
        a.lt(x) && b.le(x) ==> uniform_cdf(a, b, x).eqv(Rat::one()),
{
}

/// On the support of an interval with `a < b`, the cumulative distribution
/// function equals the linear ramp `(x - a) / (b - a)` exactly.
pub proof fn lemma_cdf_linear_on_support(a: Rat, b: Rat, x: Rat)
    requires
        a.valid(),
        b.valid(),
        x.valid(),
        a.lt(b),
        a.le(x),
        x.le(b),
    ensures
        uniform_cdf(a, b, x).eqv(x.minus(a).divided_by(b.minus(a))),
{
    let an = a.num;
    let ad = a.den;
    let bn = b.num;
    let bd = b.den;
    let xn = x.num;
    let xd = x.den;
    let q = x.minus(a).divided_by(b.minus(a));
    assert(q.num == (xn * ad - an * xd) * (bd * ad));
    assert(q.den == (xd * ad) * (bn * ad - an * bd));
    if x.le(a) {
        // here `x` and `a` denote the same number, so the ramp's numerator
        // vanishes and the function is zero
        assert(uniform_cdf(a, b, x) == Rat::zero());
        assert(xn * ad == an * xd);
        assert((xn * ad - an * xd) * (bd * ad) == 0) by (nonlinear_arith)
            requires
                xn * ad == an * xd,
        ;
        assert(q.num == 0);
        assert(uniform_cdf(a, b, x).eqv(q));
    } else if b.le(x) {
        // here `x` and `b` denote the same number, so ramp and function are
        // both one
        assert(uniform_cdf(a, b, x) == Rat::one());
        assert(xn * bd == bn * xd);
        assert((xn * ad - an * xd) * bd - xd * (bn * ad - an * bd) == (xn * bd - bn * xd) * ad)
            by (nonlinear_arith);
        assert((xn * bd - bn * xd) * ad == 0);
        assert((xn * ad - an * xd) * (bd * ad) == ((xn * ad - an * xd) * bd) * ad)
            by (nonlinear_arith);
        assert((xd * ad) * (bn * ad - an * bd) == (xd * (bn * ad - an * bd)) * ad)
            by (nonlinear_arith);
        assert(q.num == q.den);
        assert(uniform_cdf(a, b, x).eqv(q));
    } else {
        assert(uniform_cdf(a, b, x) == q);
        assert(uniform_cdf(a, b, x).eqv(q));
    }
}

/// Round trip: on an interval with `a < b`, evaluating the cumulative
/// distribution function at the quantile of any probability `p` in [0, 1]
/// gives back exactly `p`.
pub proof fn lemma_cdf_inv_cdf_round_trip(a: Rat, b: Rat, p: Rat)
    requires
        a.valid(),
        b.valid(),
        p.valid(),
        a.lt(b),
        Rat::zero().le(p),
        p.le(Rat::one()),
    ensures
        uniform_cdf(a, b, uniform_inv_cdf(a, b, p)).eqv(p),
{
    let an = a.num;
    let ad = a.den;
    let bn = b.num;
    let bd = b.den;
    let pn = p.num;
    let pd = p.den;
    let y = uniform_inv_cdf(a, b, p);
    assert(y.num == an * ((bd * ad) * pd) + ((bn * ad - an * bd) * pn) * ad);
    assert(y.den == ad * ((bd * ad) * pd));
    lemma_interp_increment(an, ad, bn, bd, pn, pd);
    if y.le(a) {
        // the quantile sits at the left endpoint, which happens exactly for
        // `p == 0`
        lemma_nonpos_factor(bn * ad - an * bd, pn, ad);
        assert(pn == 0);
    } else if b.le(y) {
        // the quantile sits at the right endpoint, which happens exactly for
        // `p == 1`; cancel one factor of `a.den` first
        let u1 = an * (bd * pd) + (bn * ad - an * bd) * pn;
        let d1 = ad * (bd * pd);
        assert(an * ((bd * ad) * pd) + ((bn * ad - an * bd) * pn) * ad == ad * (an * (bd * pd)
            + (bn * ad - an * bd) * pn)) by (nonlinear_arith);
        assert(ad * ((bd * ad) * pd) == ad * (ad * (bd * pd))) by (nonlinear_arith);
        lemma_pull_scale(ad, bn, d1);
        lemma_pull_scale(ad, u1, bd);
        assert(ad * (bn * d1) <= ad * (u1 * bd));
        lemma_cancel_le(ad, bn * d1, u1 * bd);
        lemma_overshoot_scaled(an, ad, bn, bd, pn, pd);
        lemma_nonneg_factor(bn * ad - an * bd, pn - pd, bd);
        assert(pn == pd);
    } else {
        let q = y.minus(a).divided_by(b.minus(a));
        assert(q.num == (y.num * ad - an * y.den) * (bd * ad));
        assert(q.den == (y.den * ad) * (bn * ad - an * bd));
        assert(q.num == (((bn * ad - an * bd) * pn) * (ad * ad)) * (bd * ad));
        lemma_round_trip_mid(bn * ad - an * bd, pn, ad, bd, pd);
    }
}

/// The quantile function is affine: it sends probability zero to `a` and
/// probability one to `b`, and its increment over `a` is proportional to the
/// probability, with slope `b - a`.
pub proof fn lemma_inv_cdf_affine(a: Rat, b: Rat, p: Rat)
    ensures
        uniform_inv_cdf(a, b, Rat::zero()).eqv(a),
        uniform_inv_cdf(a, b, Rat::one()).eqv(b),
        uniform_inv_cdf(a, b, p).minus(a).eqv(b.minus(a).times(p)),
{
    let an = a.num;
    let ad = a.den;
    let bn = b.num;
    let bd = b.den;
    let pn = p.num;
    let pd = p.den;
    let y0 = uniform_inv_cdf(a, b, Rat::zero());
    assert(y0.num == an * ((bd * ad) * 1) + ((bn * ad - an * bd) * 0) * ad);
    assert(y0.den == ad * ((bd * ad) * 1));
    assert((an * ((bd * ad) * 1) + ((bn * ad - an * bd) * 0) * ad) * ad == an * (ad * ((bd * ad)
        * 1))) by (nonlinear_arith);
    let y1 = uniform_inv_cdf(a, b, Rat::one());
    assert(y1.num == an * ((bd * ad) * 1) + ((bn * ad - an * bd) * 1) * ad);
    assert(y1.den == ad * ((bd * ad) * 1));
    assert((an * ((bd * ad) * 1) + ((bn * ad - an * bd) * 1) * ad) * bd == bn * (ad * ((bd * ad)
        * 1))) by (nonlinear_arith);
    let y = uniform_inv_cdf(a, b, p);
    assert(y.num == an * ((bd * ad) * pd) + ((bn * ad - an * bd) * pn) * ad);
    assert(y.den == ad * ((bd * ad) * pd));
    lemma_interp_increment(an, ad, bn, bd, pn, pd);
    let inc = y.minus(a);
    assert(inc.num == y.num * ad - an * y.den);
    assert(inc.den == y.den * ad);
    assert(inc.num == ((bn * ad - an * bd) * pn) * (ad * ad));
    lemma_affine_mid(bn * ad - an * bd, pn, ad, bd, pd);
}

/// On an interval with `a <= b`, the cumulative distribution function is
/// non-decreasing.
pub proof fn lemma_cdf_monotone(a: Rat, b: Rat, x: Rat, y: Rat)
    requires
        a.valid(),
        b.valid(),
        x.valid(),
        y.valid(),
        a.le(b),
        x.le(y),
    ensures
        uniform_cdf(a, b, x).le(uniform_cdf(a, b, y)),
{
    let an = a.num;
    let ad = a.den;
    let bn = b.num;
    let bd = b.den;
    let xn = x.num;
    let xd = x.den;
    let yn = y.num;
    let yd = y.den;
    if x.le(a) {
        assert(uniform_cdf(a, b, x) == Rat::zero());
        if y.le(a) {
            assert(uniform_cdf(a, b, y) == Rat::zero());
            assert(uniform_cdf(a, b, x).le(uniform_cdf(a, b, y)));
        } else if b.le(y) {
            assert(uniform_cdf(a, b, y) == Rat::one());
            assert(uniform_cdf(a, b, x).le(uniform_cdf(a, b, y)));
        } else {
            let qy = y.minus(a).divided_by(b.minus(a));
            assert(uniform_cdf(a, b, y) == qy);
            assert(qy.num == (yn * ad - an * yd) * (bd * ad));
            lemma_mul_pos(bd, ad);
            lemma_mul_pos(yn * ad - an * yd, bd * ad);
            assert(uniform_cdf(a, b, x).le(uniform_cdf(a, b, y)));
        }
    } else {
        // `a < x`, so `a < y` as well, and neither point is left of `a`
        lemma_frac_lt_le_trans(an, ad, xn, xd, yn, yd);
        if b.le(x) {
            assert(uniform_cdf(a, b, x) == Rat::one());
            lemma_frac_le_trans(bn, bd, xn, xd, yn, yd);
            assert(uniform_cdf(a, b, y) == Rat::one());
            assert(uniform_cdf(a, b, x).le(uniform_cdf(a, b, y)));
        } else {
            let qx = x.minus(a).divided_by(b.minus(a));
            assert(uniform_cdf(a, b, x) == qx);
            assert(qx.num == (xn * ad - an * xd) * (bd * ad));
            assert(qx.den == (xd * ad) * (bn * ad - an * bd));
            // `a < x < b`, so the ramp's denominator parts are positive
            lemma_frac_lt_trans(an, ad, xn, xd, bn, bd);
            if b.le(y) {
                assert(uniform_cdf(a, b, y) == Rat::one());
                // the ramp at `x` is at most one
                assert(xd * (bn * ad - an * bd) - (xn * ad - an * xd) * bd == (bn * xd - xn * bd)
                    * ad) by (nonlinear_arith);
                assert((xn * ad - an * xd) * (bd * ad) == ((xn * ad - an * xd) * bd) * ad)
                    by (nonlinear_arith);
                assert((xd * ad) * (bn * ad - an * bd) == (xd * (bn * ad - an * bd)) * ad)
                    by (nonlinear_arith);
                lemma_distrib(xd * (bn * ad - an * bd), (xn * ad - an * xd) * bd, ad);
                lemma_mul_nonneg(bn * xd - xn * bd, ad);
                lemma_mul_nonneg((bn * xd - xn * bd) * ad, ad);
                assert(qx.num <= qx.den);
                assert(uniform_cdf(a, b, x).le(uniform_cdf(a, b, y)));
            } else {
                let qy = y.minus(a).divided_by(b.minus(a));
                assert(uniform_cdf(a, b, y) == qy);
                assert(qy.num == (yn * ad - an * yd) * (bd * ad));
                assert(qy.den == (yd * ad) * (bn * ad - an * bd));
                // both points sit on the ramp: compare the cross-multiplied
                // numerators under the shared positive factor
                lemma_shuffle_ramp(xn * ad - an * xd, bd * ad, yd, ad, bn * ad - an * bd);
                lemma_shuffle_ramp(yn * ad - an * yd, bd * ad, xd, ad, bn * ad - an * bd);
                assert((yn * ad - an * yd) * xd - (xn * ad - an * xd) * yd == (yn * xd - xn * yd)
                    * ad) by (nonlinear_arith);
                lemma_mul_nonneg(yn * xd - xn * yd, ad);
                lemma_mul_pos(bd, ad);
                lemma_mul_pos(ad, bn * ad - an * bd);
                lemma_mul_pos(bd * ad, ad * (bn * ad - an * bd));
                lemma_cancel_le(
                    (bd * ad) * (ad * (bn * ad - an * bd)),
                    (xn * ad - an * xd) * yd,
                    (yn * ad - an * yd) * xd,
                );
                assert(qx.num * qy.den <= qy.num * qx.den);
                assert(uniform_cdf(a, b, x).le(uniform_cdf(a, b, y)));
            }
        }
    }
}

impl Distribution<Ratio> for Uniform {
    open spec fn wf(&self) -> bool {
        self.a@.small() && self.b@.small()
    }

    open spec fn in_domain(&self, x: Ratio) -> bool {
        x@.small()
    }

    open spec fn is_sample(&self, x: Ratio) -> bool {
        x@.valid() && (self.a@.le(self.b@) ==> self.a@.le(x@) && x@.le(self.b@))
    }

    fn cdf(&self, x: Ratio) -> (p: Ratio)
        ensures
            p@.eqv(uniform_cdf(self.a@, self.b@, x@)),
    {
        if x.le(&self.a) {
            Ratio::new(0, 1)
        } else if self.b.le(&x) {
            Ratio::new(1, 1)
        } else {
            let xn = x.num as i128;
            let xd = x.den as i128;
            let an = self.a.num as i128;
            let ad = self.a.den as i128;
            let bn = self.b.num as i128;
            let bd = self.b.den as i128;
            proof {
                lemma_mul_bound(xn as int, ad as int, PART_LIMIT as int, PART_LIMIT as int);
                lemma_mul_bound(an as int, xd as int, PART_LIMIT as int, PART_LIMIT as int);
                lemma_mul_bound(bn as int, ad as int, PART_LIMIT as int, PART_LIMIT as int);
                lemma_mul_bound(an as int, bd as int, PART_LIMIT as int, PART_LIMIT as int);
            }
            let rise = xn * ad - an * xd;
            let run = bn * ad - an * bd;
            proof {
                lemma_mul_bound(
                    rise as int,
                    bd as int,
                    2 * (PART_LIMIT as int) * (PART_LIMIT as int),
                    PART_LIMIT as int,
                );
                lemma_mul_bound(
                    xd as int,
                    run as int,
                    PART_LIMIT as int,
                    2 * (PART_LIMIT as int) * (PART_LIMIT as int),
                );
                // `a < x < b` holds here, so `a < b` and the denominator is
                // positive.
                lemma_frac_lt_trans(
                    an as int,
                    ad as int,
                    xn as int,
                    xd as int,
                    bn as int,
                    bd as int,
                );
                lemma_mul_pos(xd as int, run as int);
                lemma_mul_pos(rise as int, bd as int);
            }
            let num = rise * bd;
            let den = xd * run;
            let p = Ratio { num: num as i64, den: den as i64 };
            proof {
                assert((rise as int * bd as int) * ((xd as int * ad as int) * (bn as int * ad
                    as int - an as int * bd as int)) == ((xn as int * ad as int - an as int * xd
                    as int) * (bd as int * ad as int)) * (xd as int * (bn as int * ad as int - an
                    as int * bd as int))) by (nonlinear_arith)
                    requires
                        rise as int == xn as int * ad as int - an as int * xd as int,
                ;
                assert(den as int - num as int == ad as int * (bn as int * xd as int - xn as int
                    * bd as int)) by (nonlinear_arith)
                    requires
                        num as int == rise as int * bd as int,
                        den as int == xd as int * run as int,
                        rise as int == xn as int * ad as int - an as int * xd as int,
                        run as int == bn as int * ad as int - an as int * bd as int,
                ;
                lemma_mul_pos(ad as int, bn as int * xd as int - xn as int * bd as int);
            }
            p
        }
    }

    fn inv_cdf(&self, p: Ratio) -> (x: Ratio)
        ensures
            x@.valid(),
            x@.eqv(uniform_inv_cdf(self.a@, self.b@, p@)),
    {
        let pn = p.num as i128;
        let pd = p.den as i128;
        let an = self.a.num as i128;
        let ad = self.a.den as i128;
        let bn = self.b.num as i128;
        let bd = self.b.den as i128;
        proof {
            lemma_mul_bound(bd as int, pd as int, PART_LIMIT as int, PART_LIMIT as int);
            lemma_mul_bound(bn as int, ad as int, PART_LIMIT as int, PART_LIMIT as int);
            lemma_mul_bound(an as int, bd as int, PART_LIMIT as int, PART_LIMIT as int);
            lemma_mul_pos(bd as int, pd as int);
        }
        let scale = bd * pd;
        let slope = bn * ad - an * bd;
        proof {
            lemma_mul_bound(
                an as int,
                scale as int,
                PART_LIMIT as int,
                (PART_LIMIT as int) * (PART_LIMIT as int),
            );
            lemma_mul_bound(
                slope as int,
                pn as int,
                2 * (PART_LIMIT as int) * (PART_LIMIT as int),
                PART_LIMIT as int,
            );
            lemma_mul_bound(
                ad as int,
                scale as int,
                PART_LIMIT as int,
                (PART_LIMIT as int) * (PART_LIMIT as int),
            );
            lemma_mul_pos(ad as int, scale as int);
        }
        let num = an * scale + slope * pn;
        let den = ad * scale;
        let x = Ratio { num: num as i64, den: den as i64 };
        proof {
            let ani = an as int;
            let adi = ad as int;
            let bni = bn as int;
            let bdi = bd as int;
            let pni = pn as int;
            let pdi = pd as int;
            let y = uniform_inv_cdf(self.a@, self.b@, p@);
            // the computed fraction is `y` with both parts scaled down by
            // `a.den`
            assert(y.num == ani * ((bdi * adi) * pdi) + ((bni * adi - ani * bdi) * pni) * adi);
            assert(y.den == adi * ((bdi * adi) * pdi));
            let u1 = ani * (bdi * pdi) + (bni * adi - ani * bdi) * pni;
            let d1 = adi * (bdi * pdi);
            assert(ani * ((bdi * adi) * pdi) + ((bni * adi - ani * bdi) * pni) * adi == adi * (ani
                * (bdi * pdi) + (bni * adi - ani * bdi) * pni)) by (nonlinear_arith);
            assert(adi * ((bdi * adi) * pdi) == adi * (adi * (bdi * pdi))) by (nonlinear_arith);
            crate::ratio::lemma_frac_scale(u1, d1, adi);
            assert(x@.eqv(y));
        }
        x
    }

    fn sample<R: RandomSource>(&self, source: &mut R) -> (x: Ratio)
        ensures
            x@.valid(),
            exists|u: Rat|
                u.is_unit_variate() && x@.eqv(uniform_inv_cdf(self.a@, self.b@, u)),
    {
        let u = source.next_unit();
        let x = self.inv_cdf(u);
        proof {
            assert(u@.is_unit_variate() && x@.eqv(uniform_inv_cdf(self.a@, self.b@, u@)));
            if self.a@.le(self.b@) {
                lemma_interp_bounds(self.a@, self.b@, u@);
                let y = uniform_inv_cdf(self.a@, self.b@, u@);
                lemma_frac_le_subst(x@.num, x@.den, y.num, y.den, self.a@.num, self.a@.den);
                lemma_frac_le_subst(x@.num, x@.den, y.num, y.den, self.b@.num, self.b@.den);
            }
        }
        x
    }
}

} // verus!
