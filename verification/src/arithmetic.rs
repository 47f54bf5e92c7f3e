//! What the arithmetic of doubles promises, in terms of encodings and exact values.

use vstd::arithmetic::power2::{lemma2_to64, lemma_pow2_pos, pow2};
use vstd::math::abs;
use vstd::prelude::*;

use crate::double::{
    difference, larger, lemma_abs_product, lemma_signed, opposite, product, quotient, ratio, sum,
    Double,
};
use crate::rounding::{
    law_round_nearest, law_round_overflow, lemma_round_bounded, lemma_units_increase,
    lemma_units_zero, round_ratio, units, INFINITY,
};

verus! {

broadcast use lemma_round_bounded;

/// What an encoding stands for, in units of two to the power of minus 1074: the top
/// bit is the sign, the next eleven bits are the exponent, and the lower fifty-two are
/// the fraction, with an implicit leading bit unless the exponent is zero. The largest
/// exponent stands for infinity, or for no number if there is a fraction.
pub proof fn law_encoding(d: Double)
    ensures
        d.negative() <==> d.bits >= 0x8000_0000_0000_0000,
        ({
            let fields = d.bits as int % 0x8000_0000_0000_0000;
            let exponent = fields / 0x10_0000_0000_0000;
            let fraction = fields % 0x10_0000_0000_0000;
            let size = if exponent == 0 {
                fraction
            } else {
                (0x10_0000_0000_0000 + fraction) * pow2((exponent - 1) as nat)
            };
            &&& d.finite() <==> exponent < 2047
            &&& d.infinite() <==> exponent == 2047 && fraction == 0
            &&& d.nan() <==> exponent == 2047 && fraction != 0
            &&& !d.nan() ==> d.value() == (if d.negative() {
                -size
            } else {
                size
            })
        }),
{
    let m = d.magnitude();
    assert(m == d.bits as int % 0x8000_0000_0000_0000);
    lemma2_to64();
    assert(m * pow2(0) == m);
}

/// A magnitude that an exact ratio is rounded to is as near to it as any other double
/// of either sign, and has an even encoding where another one is as near.
proof fn lemma_nearest(n: nat, d: nat, negative: bool, c: Double)
    requires
        d > 0,
        c.finite(),
        round_ratio(n, d) < INFINITY,
    ensures
        ({
            let m = round_ratio(n, d);
            let r = if negative {
                -(units(m) as int)
            } else {
                units(m) as int
            };
            let exact = if negative {
                -(n as int)
            } else {
                n as int
            };
            &&& abs(r * d - exact) <= abs(c.value() * d - exact)
            &&& abs(r * d - exact) == abs(c.value() * d - exact) && c.value() != r ==> m % 2 == 0
        }),
{
    let m = round_ratio(n, d);
    let u = units(m) as int;
    let w = units(c.magnitude()) as int;
    lemma_units_zero();
    law_round_nearest(n, d, c.magnitude());
    law_round_nearest(n, d, 0);
    assert((-u) * d == -(u * d) && (-w) * d == -(w * d)) by (nonlinear_arith);
    assert(0 * d == 0);
    assert(u * d >= 0 && w * d >= 0) by (nonlinear_arith)
        requires
            u >= 0,
            w >= 0,
            d > 0,
    ;
    if w > 0 {
        assert(w * d > 0) by (nonlinear_arith)
            requires
                w > 0,
                d > 0,
        ;
    }
}

/// A sum of finite numbers is the double nearest to the exact sum: none is nearer, and
/// where another one is as near, the sum has the even encoding. It is infinite, with
/// the sign of the exact sum, if and only if that is at least halfway from the largest
/// double to the next power of two.
pub proof fn law_sum_nearest(a: Double, b: Double, c: Double)
    requires
        a.finite(),
        b.finite(),
        c.finite(),
    ensures
        ({
            let exact = a.value() + b.value();
            let r = sum(a, b);
            &&& r.finite() <==> abs(exact) < 0x3f_ffff_ffff_ffff * pow2(2044)
            &&& !r.finite() ==> r.infinite() && (r.negative() <==> exact < 0)
            &&& r.finite() ==> abs(r.value() - exact) <= abs(c.value() - exact)
            &&& r.finite() && abs(r.value() - exact) == abs(c.value() - exact) && c.value()
                != r.value() ==> r.bits % 2 == 0
        }),
{
    let exact = a.value() + b.value();
    let n = abs(exact);
    let r = sum(a, b);
    lemma_units_zero();
    lemma_pow2_pos(2044);
    law_round_overflow(n, 1);
    lemma_signed(a.negative() && b.negative(), 0);
    lemma_signed(exact < 0, round_ratio(n, 1));
    if exact != 0 && r.finite() {
        lemma_nearest(n, 1, exact < 0, c);
    }
}

/// A difference is the sum with the opposite number.
pub proof fn law_difference_nearest(a: Double, b: Double, c: Double)
    requires
        a.finite(),
        b.finite(),
        c.finite(),
    ensures
        ({
            let exact = a.value() - b.value();
            let r = difference(a, b);
            &&& r.finite() <==> abs(exact) < 0x3f_ffff_ffff_ffff * pow2(2044)
            &&& !r.finite() ==> r.infinite() && (r.negative() <==> exact < 0)
            &&& r.finite() ==> abs(r.value() - exact) <= abs(c.value() - exact)
            &&& r.finite() && abs(r.value() - exact) == abs(c.value() - exact) && c.value()
                != r.value() ==> r.bits % 2 == 0
        }),
{
    lemma_signed(!b.negative(), b.magnitude());
    law_sum_nearest(a, opposite(b), c);
}

/// A product of finite numbers is the double nearest to the exact product, as a sum is
/// to the exact sum.
pub proof fn law_product_nearest(a: Double, b: Double, c: Double)
    requires
        a.finite(),
        b.finite(),
        c.finite(),
    ensures
        ({
            let exact = a.value() * b.value();
            let r = product(a, b);
            let one = pow2(1074) as int;
            &&& r.finite() <==> abs(exact) < one * (0x3f_ffff_ffff_ffff * pow2(2044))
            &&& !r.finite() ==> r.infinite() && (r.negative() <==> exact < 0)
            &&& r.finite() ==> abs(r.value() * one - exact) <= abs(c.value() * one - exact)
            &&& r.finite() && abs(r.value() * one - exact) == abs(c.value() * one - exact)
                && c.value() != r.value() ==> r.bits % 2 == 0
        }),
{
    let exact = a.value() * b.value();
    let p = pow2(1074);
    let n = units(a.magnitude()) * units(b.magnitude());
    let negative = a.negative() != b.negative();
    lemma_units_zero();
    lemma_pow2_pos(1074);
    lemma_pow2_pos(2044);
    lemma_abs_product(a.value(), b.value());
    law_round_overflow(n, p);
    lemma_signed(negative, round_ratio(n, p));
    let (ua, ub) = (units(a.magnitude()) as int, units(b.magnitude()) as int);
    let (av, bv) = (a.value(), b.value());
    assert(av * bv == if negative {
        -(ua * ub)
    } else {
        ua * ub
    }) by (nonlinear_arith)
        requires
            av == (if a.negative() {
                -ua
            } else {
                ua
            }),
            bv == (if b.negative() {
                -ub
            } else {
                ub
            }),
            negative == (a.negative() != b.negative()),
    ;
    if round_ratio(n, p) < INFINITY {
        lemma_nearest(n, p, negative, c);
    } else {
        assert(p * (0x3f_ffff_ffff_ffff * pow2(2044)) > 0) by (nonlinear_arith)
            requires
                p > 0,
                pow2(2044) > 0,
        ;
    }
}

/// A quotient of finite numbers by one that is not zero is the double nearest to the
/// exact quotient, as a sum is to the exact sum.
pub proof fn law_quotient_nearest(a: Double, b: Double, c: Double)
    requires
        a.finite(),
        b.finite(),
        c.finite(),
        b.value() != 0,
    ensures
        ({
            let exact = a.value() * pow2(1074);
            let r = quotient(a, b);
            let d = b.value();
            &&& r.finite() <==> abs(exact) < abs(d) * (0x3f_ffff_ffff_ffff * pow2(2044))
            &&& !r.finite() ==> r.infinite() && (r.negative() <==> (a.value() < 0) != (d < 0))
            &&& r.finite() ==> abs(r.value() * d - exact) <= abs(c.value() * d - exact)
            &&& r.finite() && abs(r.value() * d - exact) == abs(c.value() * d - exact) && c.value()
                != r.value() ==> r.bits % 2 == 0
        }),
{
    let p = pow2(1074);
    let (ua, ub) = (units(a.magnitude()), units(b.magnitude()));
    let negative = a.negative() != b.negative();
    lemma_units_zero();
    lemma_pow2_pos(1074);
    lemma_pow2_pos(2044);
    let n = ua * p;
    law_round_overflow(n, ub);
    lemma_signed(negative, round_ratio(n, ub));
    lemma_abs_product(a.value(), p as int);
    let r = quotient(a, b).value();
    let (av, bv, cv) = (a.value(), b.value(), c.value());
    let (u, d) = (units(round_ratio(n, ub)) as int, ub as int);
    // The divisor's sign moves to the other side.
    assert((-(ua as int)) * p == -(ua * p)) by (nonlinear_arith);
    assert(r * (-d) == -(r * d) && cv * (-d) == -(cv * d)) by (nonlinear_arith);
    if round_ratio(n, ub) < INFINITY {
        lemma_nearest(n, ub, negative, c);
    } else {
        assert(ub * (0x3f_ffff_ffff_ffff * pow2(2044)) > 0) by (nonlinear_arith)
            requires
                ub > 0,
                pow2(2044) > 0,
        ;
        if ua == 0 {
            assert(ua * p == 0) by (nonlinear_arith)
                requires
                    ua == 0,
            ;
        }
    }
}

/// The double of a ratio of naturals is the one nearest to it, as a sum is to the
/// exact sum.
pub proof fn law_ratio_nearest(n: nat, d: nat, c: Double)
    requires
        d > 0,
        c.finite(),
    ensures
        ({
            let exact = n * pow2(1074);
            let r = ratio(n, d);
            &&& !r.negative()
            &&& r.finite() <==> exact < d * (0x3f_ffff_ffff_ffff * pow2(2044))
            &&& !r.finite() ==> r.infinite()
            &&& r.finite() ==> abs(r.value() * d - exact) <= abs(c.value() * d - exact)
            &&& r.finite() && abs(r.value() * d - exact) == abs(c.value() * d - exact) && c.value()
                != r.value() ==> r.bits % 2 == 0
        }),
{
    let e = n * pow2(1074);
    law_round_overflow(e, d);
    lemma_signed(false, round_ratio(e, d));
    if round_ratio(e, d) < INFINITY {
        lemma_nearest(e, d, false, c);
    }
}

/// What comes of operations on infinities and on what is no number, and of zeros.
pub proof fn law_special_numbers(a: Double, b: Double)
    ensures
        a.nan() || b.nan() ==> sum(a, b).nan() && difference(a, b).nan() && product(a, b).nan()
            && quotient(a, b).nan(),
        a.infinite() && b.infinite() && a.negative() == b.negative() ==> sum(a, b) == a
            && difference(a, b).nan(),
        a.infinite() && b.infinite() && a.negative() != b.negative() ==> sum(a, b).nan()
            && difference(a, b) == a,
        a.infinite() && b.finite() ==> sum(a, b) == a && difference(a, b) == a,
        a.finite() && b.infinite() ==> sum(a, b) == b && difference(a, b).infinite()
            && difference(a, b).negative() != b.negative(),
        a.infinite() && !b.nan() && b.value() != 0 || !a.nan() && a.value() != 0 && b.infinite()
            ==> product(a, b).infinite() && product(a, b).negative() == (a.negative()
            != b.negative()),
        a.infinite() && b.finite() && b.value() == 0 || a.finite() && a.value() == 0
            && b.infinite() ==> product(a, b).nan(),
        a.infinite() && b.infinite() ==> quotient(a, b).nan(),
        a.infinite() && b.finite() ==> quotient(a, b).infinite(),
        a.finite() && b.infinite() ==> quotient(a, b).finite() && quotient(a, b).value() == 0,
        a.finite() && a.value() != 0 && b.finite() && b.value() == 0 ==> quotient(
            a,
            b,
        ).infinite(),
        a.finite() && a.value() == 0 && b.finite() && b.value() == 0 ==> quotient(a, b).nan(),
{
    lemma_units_zero();
    if a.magnitude() > 0 {
        lemma_units_increase(0, a.magnitude());
    }
    if b.magnitude() > 0 {
        lemma_units_increase(0, b.magnitude());
    }
    let negative = a.negative() != b.negative();
    lemma_signed(negative, INFINITY as nat);
    lemma_signed(negative, 0);
    if b.magnitude() <= INFINITY {
        lemma_signed(!b.negative(), b.magnitude());
    }
}

/// The larger of two numbers is one of them, and none of them is above it. One that
/// is no number gives way to the other.
pub proof fn law_larger(a: Double, b: Double)
    ensures
        larger(a, b) == a || larger(a, b) == b,
        !a.nan() && !b.nan() ==> !larger(a, b).nan() && larger(a, b).value() >= a.value()
            && larger(a, b).value() >= b.value(),
        a.nan() && !b.nan() ==> larger(a, b) == b,
        b.nan() ==> larger(a, b) == a,
        !a.nan() && !b.nan() && a.value() == b.value() ==> larger(a, b) == b,
{
}

/// The opposite number has the other sign and the same size.
pub proof fn law_opposite(a: Double)
    requires
        !a.nan(),
    ensures
        opposite(a).value() == -a.value(),
        opposite(a).negative() != a.negative(),
        opposite(a).finite() == a.finite(),
{
    lemma_signed(!a.negative(), a.magnitude());
}

} // verus!
