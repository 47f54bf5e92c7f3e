//! The polynomial times, against exact arithmetic on the numbers of tokens.

use vstd::arithmetic::power2::{
    lemma2_to64, lemma2_to64_rest, lemma_pow2_adds, lemma_pow2_pos, lemma_pow2_strictly_increases,
    pow2,
};
use vstd::math::abs;
use vstd::prelude::*;

use crate::accuracy::{lemma_round_error, lemma_round_relative};
use crate::double::{
    law_quotient_exact, lemma_abs_product, lemma_one, lemma_signed, opposite, product, quotient,
    ratio, sum, Double,
};
use crate::model::{active_share, decode_formula, prefill_formula};
use crate::rounding::{
    distance, lemma_round_bounded, lemma_round_zero, lemma_scale, lemma_units_zero, round_ratio,
    scale, units, INFINITY,
};

verus! {

broadcast use lemma_round_bounded;

/// A ratio is rounded by at most one part in two to the power of 53, or, where it
/// is below that many units, by at most half a unit.
pub proof fn lemma_round_near(n: nat, d: nat)
    requires
        d > 0,
        n <= d * pow2(2096),
    ensures
        0x20_0000_0000_0000 * distance(units(round_ratio(n, d)) * d, n) <= n + 0x20_0000_0000_0000
            * d,
        n >= d * pow2(53) ==> 0x20_0000_0000_0000 * distance(units(round_ratio(n, d)) * d, n) <= n,
        round_ratio(n, d) < INFINITY,
{
    let k = scale(n, d);
    let dist = distance(units(round_ratio(n, d)) * d, n);
    lemma_scale(n, d);
    lemma2_to64_rest();
    lemma2_to64();
    if k > 0 {
        if k + 52 > 2096 {
            lemma_pow2_strictly_increases(2096, (k + 52) as nat);
            assert(d * pow2(2096) < d * pow2((k + 52) as nat)) by (nonlinear_arith)
                requires
                    pow2(2096) < pow2((k + 52) as nat),
                    d > 0,
            ;
        }
        assert(n <= d * pow2((k + 53) as nat));
        lemma_round_error(n, d, (k + 53) as nat);
        lemma_pow2_adds(k, 52);
        assert(0x20_0000_0000_0000 * dist <= n) by (nonlinear_arith)
            requires
                2 * dist <= d * pow2(k),
                d * pow2((k + 52) as nat) <= n,
                pow2((k + 52) as nat) == pow2(k) * 0x10_0000_0000_0000,
        {
            assert(d * (pow2(k) * 0x10_0000_0000_0000) == (d * pow2(k)) * 0x10_0000_0000_0000);
        }
    } else {
        lemma_round_error(n, d, 53);
        assert(d * pow2(0) == d);
    }
}

/// How far a product is from the exact one.
pub proof fn lemma_product_near(a: Double, b: Double)
    requires
        a.finite(),
        b.finite(),
        abs(a.value() * b.value()) <= pow2(1074) * pow2(2096),
    ensures
        product(a, b).finite(),
        0x20_0000_0000_0000 * abs(
            product(a, b).value() * pow2(1074) - a.value() * b.value(),
        ) <= abs(a.value() * b.value()) + 0x20_0000_0000_0000 * pow2(1074),
{
    let p = pow2(1074);
    let n = units(a.magnitude()) * units(b.magnitude());
    let negative = a.negative() != b.negative();
    lemma_pow2_pos(1074);
    lemma_units_zero();
    lemma_abs_product(a.value(), b.value());
    lemma_round_near(n, p);
    let m = round_ratio(n, p);
    lemma_signed(negative, m);
    let r = product(a, b).value();
    let (ua, ub) = (units(a.magnitude()) as int, units(b.magnitude()) as int);
    let (av, bv) = (a.value(), b.value());
    assert(av * bv == if negative { -(ua * ub) } else { ua * ub }) by (nonlinear_arith)
        requires
            av == (if a.negative() { -ua } else { ua }),
            bv == (if b.negative() { -ub } else { ub }),
            negative == (a.negative() != b.negative()),
    ;
    let um = units(m) as int;
    assert(r * p == if negative { -(um * p) } else { um * p }) by (nonlinear_arith)
        requires
            r == (if negative { -um } else { um }),
    ;
}

/// How far a sum is from the exact one.
pub proof fn lemma_sum_near(a: Double, b: Double)
    requires
        a.finite(),
        b.finite(),
        abs(a.value() + b.value()) <= pow2(2096),
    ensures
        sum(a, b).finite(),
        0x20_0000_0000_0000 * abs(sum(a, b).value() - (a.value() + b.value())) <= abs(
            a.value() + b.value(),
        ),
{
    let exact = a.value() + b.value();
    let n = abs(exact);
    lemma_units_zero();
    lemma_signed(a.negative() && b.negative(), 0);
    lemma_round_near(n, 1);
    lemma_round_relative(n);
    lemma_signed(exact < 0, round_ratio(n, 1));
}

/// How far a quotient by a positive number is from the exact one.
pub proof fn lemma_quotient_near(a: Double, b: Double)
    requires
        a.finite(),
        b.finite(),
        a.value() >= 0,
        b.value() > 0,
        a.value() * pow2(1074) <= b.value() * pow2(2096),
    ensures
        quotient(a, b).finite(),
        quotient(a, b).value() >= 0,
        0x20_0000_0000_0000 * abs(
            quotient(a, b).value() * b.value() - a.value() * pow2(1074),
        ) <= a.value() * pow2(1074) + 0x20_0000_0000_0000 * b.value(),
{
    let p = pow2(1074);
    let d = units(b.magnitude());
    let u = units(a.magnitude());
    lemma_units_zero();
    assert(a.value() == u) by {
        if a.negative() {
            assert(u == 0);
        }
    }
    lemma_round_near(u * p, d);
    let m = round_ratio(u * p, d);
    lemma_signed(false, m);
    lemma_signed(true, m);
    if a.negative() {
        assert(u * p == 0) by (nonlinear_arith)
            requires
                u == 0,
        ;
        lemma_round_zero(d);
    }
}

/// The double of a ratio of two counts is off by at most one part in two to the power
/// of 53.
pub proof fn law_ratio_near(n: nat, d: nat)
    requires
        0 < d <= 0x1_0000_0000_0000_0000,
        n <= 0x1_0000_0000_0000_0000,
    ensures
        ratio(n, d).finite(),
        ratio(n, d).value() >= 0,
        0x20_0000_0000_0000 * abs(ratio(n, d).value() * d - n * pow2(1074)) <= n * pow2(1074),
{
    let p = pow2(1074);
    lemma2_to64();
    lemma2_to64_rest();
    lemma_pow2_pos(1074);
    lemma_pow2_adds(64, 1074);
    lemma_pow2_strictly_increases(1138, 2096);
    assert(n * p <= d * pow2(2096)) by (nonlinear_arith)
        requires
            n <= 0x1_0000_0000_0000_0000,
            pow2(1138) == 0x1_0000_0000_0000_0000 * p,
            pow2(1138) < pow2(2096),
            d >= 1,
    ;
    lemma_round_near(n * p, d);
    lemma_signed(false, round_ratio(n * p, d));
    if n == 0 {
        assert(n * p == 0) by (nonlinear_arith)
            requires
                n == 0,
        ;
        lemma_round_zero(d);
        lemma_units_zero();
        assert(0 * d == 0);
    } else {
        lemma_pow2_adds(64, 53);
        lemma_pow2_strictly_increases(117, 1074);
        assert(n * p >= d * pow2(53)) by (nonlinear_arith)
            requires
                n >= 1,
                d <= 0x1_0000_0000_0000_0000,
                pow2(117) == 0x1_0000_0000_0000_0000 * pow2(53),
                pow2(117) < p,
        ;
    }
}

/// A bound on a product of sizes.
proof fn lemma_scaled(f: int, a: int, b: int)
    requires
        f >= 0,
        a <= b,
    ensures
        f * a <= f * b,
{
    assert(f * a <= f * b) by (nonlinear_arith)
        requires
            f >= 0,
            a <= b,
    ;
}

/// The quadratic term of a polynomial, against the exact one.
proof fn lemma_quadratic_term(
    x: int,
    sq: int,
    av: int,
    c2: int,
    k2: int,
    d: int,
    p: int,
    junk: int,
)
    requires
        p > 0,
        d > 0,
        0x20_0000_0000_0000 * abs(d * c2 - k2 * p) <= abs(k2) * p,
        0x20_0000_0000_0000 * abs(sq * p - x * x) <= x * x + 0x20_0000_0000_0000 * p,
        0x20_0000_0000_0000 * abs(av * p - c2 * sq) <= abs(c2 * sq) + 0x20_0000_0000_0000 * p,
        junk == ((d + 4 * abs(k2)) * 0x20_0000_0000_0000) * p,
    ensures
        junk >= 0,
        0x20_0000_0000_0000 * abs((d * av) * p - k2 * (x * x)) <= 7 * (abs(k2) * (x * x)) + junk,
        abs((d * av) * p) <= 2 * (abs(k2) * (x * x)) + junk,
{
    let k = 0x20_0000_0000_0000int;
    let a2 = abs(k2) as int;
    let xx = x * x;
    let us = abs(sq) as int;
    assert(xx >= 0) by (nonlinear_arith)
        requires
            xx == x * x,
    ;
    lemma_abs_product(sq, p);
    // The size of the square.
    assert(us * p <= 2 * xx + p);
    // The size of the coefficient.
    lemma_abs_product(k2, p);
    lemma_abs_product(d, c2);
    let ac = abs(c2) as int;
    assert(a2 * p >= 0) by (nonlinear_arith)
        requires
            a2 >= 0,
            p > 0,
    ;
    assert(d * ac <= 2 * (a2 * p));
    // Three contributions.
    let (e1, e2, e3) = (av * p - c2 * sq, d * c2 - k2 * p, sq * p - xx);
    assert((d * av) * p - k2 * xx == d * e1 + e2 * sq + k2 * e3) by {
        assert(d * e1 == (d * av) * p - (d * c2) * sq) by (nonlinear_arith)
            requires
                e1 == av * p - c2 * sq,
        ;
        assert(e2 * sq == (d * c2) * sq - k2 * (sq * p)) by (nonlinear_arith)
            requires
                e2 == d * c2 - k2 * p,
        ;
        assert(k2 * e3 == k2 * (sq * p) - k2 * xx) by (nonlinear_arith)
            requires
                e3 == sq * p - xx,
        ;
    }
    lemma_abs_product(d, e1);
    lemma_abs_product(e2, sq);
    lemma_abs_product(k2, e3);
    lemma_abs_product(c2, sq);
    let (u1, u2, u3) = (abs(e1) as int, abs(e2) as int, abs(e3) as int);
    // The first.
    assert(k * (d * u1) <= (d * ac) * us + (d * k) * p) by (nonlinear_arith)
        requires
            k * u1 <= ac * us + k * p,
            d > 0,
    ;
    assert((d * ac) * us <= (2 * (a2 * p)) * us) by (nonlinear_arith)
        requires
            d * ac <= 2 * (a2 * p),
            us >= 0,
    ;
    assert((2 * (a2 * p)) * us == 2 * (a2 * (us * p))) by (nonlinear_arith);
    // The second.
    assert(k * (u2 * us) <= a2 * (us * p)) by (nonlinear_arith)
        requires
            k * u2 <= a2 * p,
            us >= 0,
    ;
    // The third.
    assert(k * (a2 * u3) <= a2 * (xx + k * p)) by (nonlinear_arith)
        requires
            k * u3 <= xx + k * p,
            a2 >= 0,
    ;
    lemma_scaled(a2, us * p, 2 * xx + p);
    assert(a2 * (2 * xx + p) == 2 * (a2 * xx) + a2 * p) by (nonlinear_arith);
    assert(a2 * (xx + k * p) == a2 * xx + (a2 * k) * p) by (nonlinear_arith);
    assert(junk == (d * k) * p + 4 * ((a2 * k) * p)) by (nonlinear_arith)
        requires
            junk == ((d + 4 * a2) * k) * p,
    ;
    assert(a2 * p <= (a2 * k) * p) by (nonlinear_arith)
        requires
            a2 >= 0,
            p > 0,
            k >= 1,
    ;
    assert((d * k) * p >= 0) by (nonlinear_arith)
        requires
            d > 0,
            p > 0,
            k > 0,
    ;
    assert(a2 * xx >= 0) by (nonlinear_arith)
        requires
            a2 >= 0,
            xx >= 0,
    ;
    lemma_abs_product(k2, xx);
}

/// The linear term of a polynomial, against the exact one.
proof fn lemma_linear_term(x: int, bv: int, c1: int, k1: int, d: int, p: int, junk: int)
    requires
        p > 0,
        d > 0,
        0x20_0000_0000_0000 * abs(d * c1 - k1 * p) <= abs(k1) * p,
        0x20_0000_0000_0000 * abs(bv * p - c1 * x) <= abs(c1 * x) + 0x20_0000_0000_0000 * p,
        junk >= (d * 0x20_0000_0000_0000) * p,
    ensures
        0x20_0000_0000_0000 * abs((d * bv) * p - (k1 * x) * p) <= 3 * ((abs(k1) * abs(x)) * p)
            + junk,
        abs((d * bv) * p) <= 2 * ((abs(k1) * abs(x)) * p) + junk,
{
    let k = 0x20_0000_0000_0000int;
    let a1 = abs(k1) as int;
    let ax = abs(x) as int;
    let ac = abs(c1) as int;
    lemma_abs_product(k1, p);
    lemma_abs_product(d, c1);
    assert(a1 * p >= 0) by (nonlinear_arith)
        requires
            a1 >= 0,
            p > 0,
    ;
    assert(d * ac <= 2 * (a1 * p));
    let (e1, e2) = (bv * p - c1 * x, d * c1 - k1 * p);
    assert((d * bv) * p - (k1 * x) * p == d * e1 + e2 * x) by {
        assert(d * e1 == (d * bv) * p - (d * c1) * x) by (nonlinear_arith)
            requires
                e1 == bv * p - c1 * x,
        ;
        assert(e2 * x == (d * c1) * x - (k1 * x) * p) by (nonlinear_arith)
            requires
                e2 == d * c1 - k1 * p,
        ;
    }
    lemma_abs_product(d, e1);
    lemma_abs_product(e2, x);
    lemma_abs_product(c1, x);
    lemma_abs_product(k1, x);
    lemma_abs_product(k1 * x, p);
    let (u1, u2) = (abs(e1) as int, abs(e2) as int);
    assert(k * (d * u1) <= (d * ac) * ax + (d * k) * p) by (nonlinear_arith)
        requires
            k * u1 <= ac * ax + k * p,
            d > 0,
    ;
    assert((d * ac) * ax <= 2 * ((a1 * ax) * p)) by (nonlinear_arith)
        requires
            d * ac <= 2 * (a1 * p),
            ax >= 0,
    ;
    assert(k * (u2 * ax) <= (a1 * ax) * p) by (nonlinear_arith)
        requires
            k * u2 <= a1 * p,
            ax >= 0,
    ;
    assert((a1 * ax) * p >= 0) by (nonlinear_arith)
        requires
            a1 >= 0,
            ax >= 0,
            p > 0,
    ;
}

/// A rounded sum, scaled.
proof fn lemma_scaled_sum(f: int, a: int, b: int, s: int)
    requires
        f > 0,
        0x20_0000_0000_0000 * abs(s - (a + b)) <= abs(a + b),
    ensures
        0x20_0000_0000_0000 * abs(f * s - (f * a + f * b)) <= abs(f * a + f * b),
{
    let k = 0x20_0000_0000_0000int;
    let off = s - (a + b);
    assert(f * off == f * s - (f * a + f * b)) by (nonlinear_arith)
        requires
            off == s - (a + b),
    ;
    assert(f * (a + b) == f * a + f * b) by (nonlinear_arith);
    lemma_abs_product(f, off);
    lemma_abs_product(f, a + b);
    lemma_scaled(f, k * abs(off), abs(a + b) as int);
    let u = abs(off) as int;
    assert(f * (k * u) == k * (f * u)) by (nonlinear_arith);
}

/// Terms added up, against the exact sum.
proof fn lemma_add_up(
    a: int,
    b: int,
    c: int,
    s: int,
    y: int,
    q2: int,
    q1: int,
    q0: int,
    t2: int,
    t1: int,
    t0: int,
    junk: int,
)
    requires
        t2 >= 0 && t1 >= 0 && t0 >= 0 && junk >= 0,
        8 * junk <= t0,
        0x20_0000_0000_0000 * abs(a - q2) <= 7 * t2 + junk,
        abs(a) <= 2 * t2 + junk,
        0x20_0000_0000_0000 * abs(b - q1) <= 3 * t1 + junk,
        abs(b) <= 2 * t1 + junk,
        0x20_0000_0000_0000 * abs(c - q0) <= t0,
        abs(c) <= 2 * t0,
        0x20_0000_0000_0000 * abs(s - (a + b)) <= abs(a + b),
        0x20_0000_0000_0000 * abs(y - (s + c)) <= abs(s + c),
    ensures
        0x20_0000_0000_0000 * abs(y - (q2 + q1 + q0)) <= 16 * (t2 + t1 + t0),
{
    let k = 0x20_0000_0000_0000int;
    let (e1, e2) = (abs(s - (a + b)) as int, abs(y - (s + c)) as int);
    let (ea, eb, ec) = (abs(a - q2) as int, abs(b - q1) as int, abs(c - q0) as int);
    assert(k * e1 <= 2 * t2 + 2 * t1 + 2 * junk);
    assert(abs(s) <= 4 * t2 + 4 * t1 + 4 * junk);
    assert(k * e2 <= 4 * t2 + 4 * t1 + 4 * junk + 2 * t0);
    assert(abs(y - (q2 + q1 + q0)) <= e1 + e2 + ea + eb + ec);
    assert(k * (e1 + e2 + ea + eb + ec) <= 13 * t2 + 9 * t1 + 3 * t0 + 8 * junk);
}

/// What rounding may add to the terms of a polynomial, whatever their size.
spec fn leftover(k2: int, d: int) -> int {
    ((d + 4 * abs(k2)) * 0x20_0000_0000_0000) * pow2(1074)
}

/// How large the leftover is.
proof fn lemma_leftover(k2: int, d: int)
    requires
        0 < d <= 0x1_0000_0000_0000_0000,
        abs(k2) <= 0x1_0000_0000_0000_0000,
    ensures
        0 <= (d * 0x20_0000_0000_0000) * pow2(1074) <= leftover(k2, d),
        leftover(k2, d) <= pow2(1200),
{
    let k = 0x20_0000_0000_0000int;
    let q = 0x1_0000_0000_0000_0000int;
    let p = pow2(1074) as int;
    let a2 = abs(k2) as int;
    lemma_powers();
    let (low, middle, high) = (d * k, (d + 4 * a2) * k, (5 * q) * k);
    assert(0 <= low <= middle <= high) by (nonlinear_arith)
        requires
            low == d * k,
            middle == (d + 4 * a2) * k,
            high == (5 * q) * k,
            0 < d <= q,
            0 <= a2 <= q,
            k > 0,
    ;
    assert(0 <= low * p <= middle * p && middle * p <= high * p) by (nonlinear_arith)
        requires
            0 <= low <= middle <= high,
            p > 0,
    ;
    assert(high * p <= pow2(126) * p) by (nonlinear_arith)
        requires
            high <= pow2(126),
            p > 0,
    ;
}

/// A rounded coefficient is at most twice the exact one.
proof fn lemma_coefficient(c: int, k: int, d: int)
    requires
        d > 0,
        0x20_0000_0000_0000 * abs(d * c - k * pow2(1074)) <= abs(k) * pow2(1074),
    ensures
        abs(c) <= d * abs(c) <= 2 * (abs(k) * pow2(1074)),
        0 <= abs(k) * pow2(1074),
{
    let p = pow2(1074) as int;
    lemma_pow2_pos(1074);
    lemma_abs_product(k, p);
    lemma_abs_product(d, c);
    let (ac, ak) = (abs(c) as int, abs(k) as int);
    assert(ac <= d * ac) by (nonlinear_arith)
        requires
            d >= 1,
            ac >= 0,
    ;
    assert(0 <= ak * p) by (nonlinear_arith)
        requires
            ak >= 0,
            p > 0,
    ;
}

/// The quadratic term as a double.
proof fn lemma_quadratic_step(c: Double, x: Double, k: int, d: int)
    requires
        c.finite() && x.finite(),
        0 < d <= 0x1_0000_0000_0000_0000,
        abs(k) <= 0x1_0000_0000_0000_0000,
        0x20_0000_0000_0000 * abs(d * c.value() - k * pow2(1074)) <= abs(k) * pow2(1074),
        abs(x.value()) <= pow2(1500),
    ensures
        ({
            let t = product(c, product(x, x));
            let p = pow2(1074) as int;
            let xx = x.value() * x.value();
            &&& t.finite()
            &&& abs(t.value()) <= pow2(2026)
            &&& 0x20_0000_0000_0000 * abs((d * t.value()) * p - k * xx) <= 7 * (abs(k) * xx)
                + leftover(k, d)
            &&& abs((d * t.value()) * p) <= 2 * (abs(k) * xx) + leftover(k, d)
            &&& 0 <= xx
        }),
{
    let p = pow2(1074) as int;
    let v = x.value();
    let xx = v * v;
    let q = 0x1_0000_0000_0000_0000int;
    let cv = c.value();
    lemma_powers();
    lemma_leftover(k, d);
    lemma_coefficient(cv, k, d);
    assert(0 <= xx <= pow2(3000)) by (nonlinear_arith)
        requires
            xx == v * v,
            abs(v) <= pow2(1500),
            pow2(3000) == pow2(1500) * pow2(1500),
    {
        let u = abs(v) as int;
        assert(v * v == u * u);
        assert(u * u <= pow2(1500) * pow2(1500));
    }
    lemma_product_near(x, x);
    let sq = product(x, x).value();
    lemma_abs_product(sq, p);
    lemma_abs_product(cv, sq);
    let (ak, us, ac) = (abs(k) as int, abs(sq) as int, abs(cv) as int);
    assert(us * p <= 2 * xx + p);
    assert(ac * us <= 2 * (ak * (us * p))) by (nonlinear_arith)
        requires
            ac <= 2 * (ak * p),
            us >= 0,
    ;
    assert(0 <= us * p) by (nonlinear_arith)
        requires
            us >= 0,
            p > 0,
    ;
    assert(ak * (us * p) <= q * pow2(3002)) by (nonlinear_arith)
        requires
            0 <= ak <= q,
            0 <= us * p <= pow2(3002),
    ;
    lemma_product_near(c, product(x, x));
    let av = product(c, product(x, x)).value();
    lemma_quadratic_term(v, sq, av, cv, k, d, p, leftover(k, d));
    assert(ak * xx <= q * pow2(3000)) by (nonlinear_arith)
        requires
            0 <= ak <= q,
            0 <= xx <= pow2(3000),
    ;
    lemma_abs_product(d * av, p);
    lemma_abs_product(d, av);
    lemma_size(av, d, p, 3100, 2026);
}

/// The linear term as a double.
proof fn lemma_linear_step(c: Double, x: Double, k: int, d: int, junk: int)
    requires
        c.finite() && x.finite(),
        0 < d <= 0x1_0000_0000_0000_0000,
        abs(k) <= 0x1_0000_0000_0000_0000,
        0x20_0000_0000_0000 * abs(d * c.value() - k * pow2(1074)) <= abs(k) * pow2(1074),
        abs(x.value()) <= pow2(1500),
        (d * 0x20_0000_0000_0000) * pow2(1074) <= junk <= pow2(1200),
    ensures
        ({
            let t = product(c, x);
            let p = pow2(1074) as int;
            let xp = x.value() * p;
            &&& t.finite()
            &&& abs(t.value()) <= pow2(2026)
            &&& 0x20_0000_0000_0000 * abs((d * t.value()) * p - k * xp) <= 3 * (abs(k) * abs(xp))
                + junk
            &&& abs((d * t.value()) * p) <= 2 * (abs(k) * abs(xp)) + junk
        }),
{
    let p = pow2(1074) as int;
    let v = x.value();
    let q = 0x1_0000_0000_0000_0000int;
    let cv = c.value();
    lemma_powers();
    lemma_coefficient(cv, k, d);
    lemma_abs_product(cv, v);
    let (ak, ax, ac) = (abs(k) as int, abs(v) as int, abs(cv) as int);
    assert(ak * ax <= q * pow2(1500)) by (nonlinear_arith)
        requires
            0 <= ak <= q,
            0 <= ax <= pow2(1500),
    ;
    assert((ak * ax) * p <= (q * pow2(1500)) * p) by (nonlinear_arith)
        requires
            ak * ax <= q * pow2(1500),
            p > 0,
    ;
    assert((q * pow2(1500)) * p == q * (p * pow2(1500))) by (nonlinear_arith);
    assert(ac * ax <= 2 * ((ak * ax) * p)) by (nonlinear_arith)
        requires
            ac <= 2 * (ak * p),
            ax >= 0,
    ;
    lemma_product_near(c, x);
    let bv = product(c, x).value();
    lemma_linear_term(v, bv, cv, k, d, p, junk);
    lemma_abs_product(d * bv, p);
    lemma_abs_product(d, bv);
    lemma_size(bv, d, p, 3100, 2026);
    assert((k * v) * p == k * (v * p)) by (nonlinear_arith);
    lemma_abs_product(v, p);
    assert((ak * ax) * p == ak * (ax * p)) by (nonlinear_arith);
}

/// A quadratic polynomial evaluated as a double, against the exact one: off by at
/// most sixteen parts in two to the power of 53 of the sizes of its terms. The
/// coefficients are `k2 / d`, `k1 / d` and `k0 / d`, rounded.
proof fn lemma_quadratic(
    c2: Double,
    c1: Double,
    c0: Double,
    x: Double,
    k2: int,
    k1: int,
    k0: int,
    d: int,
)
    requires
        c2.finite() && c1.finite() && c0.finite() && x.finite(),
        0 < d <= 0x1_0000_0000_0000_0000,
        abs(k2) <= 0x1_0000_0000_0000_0000,
        abs(k1) <= 0x1_0000_0000_0000_0000,
        1 <= abs(k0) <= 0x1_0000_0000_0000_0000,
        0x20_0000_0000_0000 * abs(d * c2.value() - k2 * pow2(1074)) <= abs(k2) * pow2(1074),
        0x20_0000_0000_0000 * abs(d * c1.value() - k1 * pow2(1074)) <= abs(k1) * pow2(1074),
        0x20_0000_0000_0000 * abs(d * c0.value() - k0 * pow2(1074)) <= abs(k0) * pow2(1074),
        abs(x.value()) <= pow2(1500),
    ensures
        ({
            let y = sum(sum(product(c2, product(x, x)), product(c1, x)), c0);
            let p = pow2(1074) as int;
            let v = x.value();
            &&& y.finite()
            &&& 0x20_0000_0000_0000 * abs(
                (d * y.value()) * p - (k2 * (v * v) + k1 * (v * p) + k0 * (p * p)),
            ) <= 16 * (abs(k2) * (v * v) + abs(k1) * abs(v * p) + abs(k0) * (p * p))
        }),
{
    let p = pow2(1074) as int;
    let junk = leftover(k2, d);
    lemma_powers();
    lemma_leftover(k2, d);
    lemma_quadratic_step(c2, x, k2, d);
    lemma_linear_step(c1, x, k1, d, junk);
    lemma_coefficient(c0.value(), k0, d);
    let a0 = abs(k0) as int;
    assert(a0 * p <= 0x1_0000_0000_0000_0000 * p) by (nonlinear_arith)
        requires
            a0 <= 0x1_0000_0000_0000_0000,
            p > 0,
    ;
    let quadratic = product(c2, product(x, x));
    let linear = product(c1, x);
    lemma_sum_near(quadratic, linear);
    lemma_sum_near(sum(quadratic, linear), c0);
    lemma_polynomial_total(
        quadratic.value(),
        linear.value(),
        c0.value(),
        sum(quadratic, linear).value(),
        sum(sum(quadratic, linear), c0).value(),
        x.value(),
        k2,
        k1,
        k0,
        d,
    );
}

/// The terms of a polynomial, added up.
proof fn lemma_polynomial_total(
    av: int,
    bv: int,
    c0: int,
    s: int,
    y: int,
    v: int,
    k2: int,
    k1: int,
    k0: int,
    d: int,
)
    requires
        0 < d,
        abs(k0) >= 1,
        0 <= leftover(k2, d) <= pow2(1200),
        0 <= v * v,
        0x20_0000_0000_0000 * abs((d * av) * pow2(1074) - k2 * (v * v)) <= 7 * (abs(k2) * (v * v))
            + leftover(k2, d),
        abs((d * av) * pow2(1074)) <= 2 * (abs(k2) * (v * v)) + leftover(k2, d),
        0x20_0000_0000_0000 * abs((d * bv) * pow2(1074) - k1 * (v * pow2(1074))) <= 3 * (abs(k1)
            * abs(v * pow2(1074))) + leftover(k2, d),
        abs((d * bv) * pow2(1074)) <= 2 * (abs(k1) * abs(v * pow2(1074))) + leftover(k2, d),
        0x20_0000_0000_0000 * abs(d * c0 - k0 * pow2(1074)) <= abs(k0) * pow2(1074),
        0x20_0000_0000_0000 * abs(s - (av + bv)) <= abs(av + bv),
        0x20_0000_0000_0000 * abs(y - (s + c0)) <= abs(s + c0),
    ensures
        ({
            let p = pow2(1074) as int;
            0x20_0000_0000_0000 * abs(
                (d * y) * p - (k2 * (v * v) + k1 * (v * p) + k0 * (p * p)),
            ) <= 16 * (abs(k2) * (v * v) + abs(k1) * abs(v * p) + abs(k0) * (p * p))
        }),
{
    let k = 0x20_0000_0000_0000int;
    let p = pow2(1074) as int;
    let pp = p * p;
    let f = d * p;
    lemma_powers();
    assert(f > 0) by (nonlinear_arith)
        requires
            f == d * p,
            d > 0,
            p > 0,
    ;
    lemma_scaled_sum(f, av, bv, s);
    lemma_scaled_sum(f, s, c0, y);
    lemma_regroup(d, av, p);
    lemma_regroup(d, bv, p);
    lemma_regroup(d, y, p);
    lemma_regroup(d, c0, p);
    let (t2, t1, t0) = (
        (abs(k2) * (v * v)) as int,
        (abs(k1) * abs(v * p)) as int,
        (abs(k0) * pp) as int,
    );
    let (a2, a1, a0) = (abs(k2) as int, abs(k1) as int, abs(k0) as int);
    let (xx, xp) = (v * v, abs(v * p) as int);
    assert(a2 * xx >= 0 && a1 * xp >= 0) by (nonlinear_arith)
        requires
            a2 >= 0,
            a1 >= 0,
            xx >= 0,
            xp >= 0,
    ;
    assert(a0 * pp >= pp && pp >= 0) by (nonlinear_arith)
        requires
            a0 >= 1,
            pp == p * p,
    ;
    // The constant term.
    let e0 = d * c0 - k0 * p;
    assert(e0 * p == (d * c0) * p - k0 * pp) by (nonlinear_arith)
        requires
            e0 == d * c0 - k0 * p,
            pp == p * p,
    ;
    lemma_abs_product(e0, p);
    let u0 = abs(e0) as int;
    assert(k * (u0 * p) <= a0 * pp) by (nonlinear_arith)
        requires
            k * u0 <= a0 * p,
            p > 0,
            pp == p * p,
    ;
    lemma_abs_product(k0, pp);
    lemma_add_up(
        f * av,
        f * bv,
        f * c0,
        f * s,
        f * y,
        k2 * xx,
        k1 * (v * p),
        k0 * pp,
        t2,
        t1,
        t0,
        leftover(k2, d),
    );
}

/// A product of three, regrouped.
proof fn lemma_regroup(d: int, a: int, p: int)
    ensures
        (d * a) * p == (d * p) * a,
{
    assert((d * a) * p == (d * p) * a) by (nonlinear_arith);
}

/// A number whose multiple is bounded by a power of two.
proof fn lemma_size(v: int, d: int, p: int, top: nat, e: nat)
    requires
        d >= 1,
        p == pow2(1074),
        (d * abs(v)) * p <= pow2(top),
        top == e + 1074,
    ensures
        abs(v) <= pow2(e),
{
    lemma_pow2_pos(1074);
    lemma_pow2_adds(e, 1074);
    let u = abs(v) as int;
    assert(u <= pow2(e)) by (nonlinear_arith)
        requires
            (d * u) * p <= pow2(e) * p,
            d >= 1,
            p > 0,
            u >= 0,
    {
        assert(u * p <= (d * u) * p);
    }
}

/// Powers of two that bound the steps of a polynomial.
proof fn lemma_powers()
    ensures
        pow2(1074) > 0,
        pow2(3000) == pow2(1500) * pow2(1500),
        pow2(3000) <= pow2(1074) * pow2(2096),
        2 * pow2(3000) + pow2(1074) <= pow2(3002),
        2 * (0x1_0000_0000_0000_0000 * pow2(3002)) <= pow2(1074) * pow2(2096),
        pow2(2574) == pow2(1074) * pow2(1500),
        2 * (0x1_0000_0000_0000_0000 * pow2(2574)) <= pow2(1074) * pow2(2096),
        pow2(1200) == pow2(126) * pow2(1074),
        pow2(126) >= (5 * 0x1_0000_0000_0000_0000) * 0x20_0000_0000_0000,
        8 * pow2(1200) <= pow2(1074) * pow2(1074),
        2 * (0x1_0000_0000_0000_0000 * pow2(3000)) + pow2(1200) <= pow2(3100),
        2 * (0x1_0000_0000_0000_0000 * pow2(2574)) + pow2(1200) <= pow2(3100),
        2 * pow2(2026) <= pow2(2096),
        4 * pow2(2026) + 2 * (0x1_0000_0000_0000_0000 * pow2(1074)) <= pow2(2096),
{
    lemma2_to64();
    lemma2_to64_rest();
    lemma_pow2_pos(1074);
    lemma_pow2_adds(1500, 1500);
    lemma_pow2_adds(1074, 2096);
    lemma_pow2_strictly_increases(3000, 3170);
    lemma_pow2_adds(3000, 2);
    lemma_pow2_strictly_increases(1074, 3000);
    lemma_pow2_adds(64, 3002);
    lemma_pow2_adds(1, 3066);
    lemma_pow2_strictly_increases(3067, 3170);
    lemma_pow2_adds(1074, 1500);
    lemma_pow2_adds(64, 2574);
    lemma_pow2_adds(1, 2638);
    lemma_pow2_strictly_increases(2639, 3170);
    lemma_pow2_adds(126, 1074);
    lemma_pow2_adds(63, 63);
    lemma_pow2_adds(1074, 1074);
    lemma_pow2_adds(3, 1200);
    lemma_pow2_strictly_increases(1203, 2148);
    lemma_pow2_adds(64, 3000);
    lemma_pow2_adds(1, 3064);
    lemma_pow2_adds(1, 3065);
    lemma_pow2_strictly_increases(1200, 3065);
    lemma_pow2_strictly_increases(3066, 3100);
    lemma_pow2_strictly_increases(1200, 2639);
    lemma_pow2_adds(1, 2639);
    lemma_pow2_strictly_increases(2640, 3100);
    lemma_pow2_adds(1, 2026);
    lemma_pow2_strictly_increases(2027, 2096);
    lemma_pow2_adds(2, 2026);
    lemma_pow2_adds(64, 1074);
    lemma_pow2_adds(1, 1138);
    lemma_pow2_strictly_increases(1139, 2028);
    lemma_pow2_adds(1, 2028);
    lemma_pow2_strictly_increases(2029, 2096);
}

/// A polynomial at a rounded ratio, against the exact polynomial at the ratio
/// `a / t`.
proof fn lemma_polynomial_at_ratio(
    y: int,
    x: int,
    a: int,
    t: int,
    k2: int,
    k1: int,
    k0: int,
    d: int,
)
    requires
        a >= 0,
        t >= 1,
        x >= 0,
        0x20_0000_0000_0000 * abs(x * t - a * pow2(1074)) <= 12 * (a * pow2(1074)),
        ({
            let p = pow2(1074) as int;
            0x20_0000_0000_0000 * abs(
                (d * y) * p - (k2 * (x * x) + k1 * (x * p) + k0 * (p * p)),
            ) <= 16 * (abs(k2) * (x * x) + abs(k1) * abs(x * p) + abs(k0) * (p * p))
        }),
    ensures
        0x4000_0000_0000 * abs(
            (d * y) * (t * t) - (k2 * (a * a) + k1 * (a * t) + k0 * (t * t)) * pow2(1074),
        ) <= (abs(k2) * (a * a) + abs(k1) * (a * t) + abs(k0) * (t * t)) * pow2(1074),
{
    let k = 0x20_0000_0000_0000int;
    let p = pow2(1074) as int;
    lemma_pow2_pos(1074);
    let (w, m) = (x * t, a * p);
    let tp = t * p;
    let tt = t * t;
    let (a2, a1, a0) = (abs(k2) as int, abs(k1) as int, abs(k0) as int);
    assert(m >= 0 && w >= 0 && tp > 0 && tt > 0 && x * p >= 0) by (nonlinear_arith)
        requires
            m == a * p,
            w == x * t,
            tp == t * p,
            tt == t * t,
            a >= 0,
            x >= 0,
            t >= 1,
            p > 0,
    ;
    assert(w <= 2 * m);
    // The three exact terms, with the ratio's numerator and denominator.
    let (n2, n1, n0) = (m * m, m * tp, tp * tp);
    let (q2, q1) = (w * w, w * tp);
    assert((x * x) * tt == q2 && (x * p) * tt == q1 && (p * p) * tt == n0) by (nonlinear_arith)
        requires
            q2 == w * w,
            q1 == w * tp,
            n0 == tp * tp,
            w == x * t,
            tp == t * p,
            tt == t * t,
    ;
    let off = abs(w - m) as int;
    assert(k * abs(q2 - n2) <= 36 * n2 && q2 <= 4 * n2) by (nonlinear_arith)
        requires
            q2 == w * w,
            n2 == m * m,
            off == abs(w - m),
            k * off <= 12 * m,
            0 <= w <= 2 * m,
    {
        assert(q2 - n2 == (w - m) * (w + m));
        assert(abs((w - m) * (w + m)) == off * (w + m));
        assert(off * (w + m) <= off * (3 * m));
        assert(k * (off * (3 * m)) == (k * off) * (3 * m));
        assert((k * off) * (3 * m) <= (12 * m) * (3 * m));
        assert(w * w <= (2 * m) * (2 * m));
    }
    assert(k * abs(q1 - n1) <= 12 * n1 && 0 <= q1 <= 2 * n1) by (nonlinear_arith)
        requires
            q1 == w * tp,
            n1 == m * tp,
            off == abs(w - m),
            k * off <= 12 * m,
            0 <= w <= 2 * m,
            tp > 0,
    {
        assert(q1 - n1 == (w - m) * tp);
        assert(abs((w - m) * tp) == off * tp);
        assert((k * off) * tp <= (12 * m) * tp);
    }
    // The error of the polynomial, times the square of the denominator.
    let exact = k2 * (x * x) + k1 * (x * p) + k0 * (p * p);
    let sizes = a2 * (x * x) + a1 * (x * p) + a0 * (p * p);
    let e = (d * y) * p - exact;
    lemma_abs_product(e, tt);
    let ue = abs(e) as int;
    assert(k * (ue * tt) <= 16 * (sizes * tt)) by (nonlinear_arith)
        requires
            k * ue <= 16 * sizes,
            tt > 0,
    ;
    assert(exact * tt == k2 * q2 + k1 * q1 + k0 * n0) by {
        lemma_three_times(k2, x * x, k1, x * p, k0, p * p, tt);
    }
    assert(sizes * tt == a2 * q2 + a1 * q1 + a0 * n0) by {
        lemma_three_times(a2, x * x, a1, x * p, a0, p * p, tt);
    }
    assert(e * tt == ((d * y) * tt) * p - exact * tt) by (nonlinear_arith)
        requires
            e == (d * y) * p - exact,
    ;
    // The exact polynomial at the ratio.
    let target = k2 * (a * a) + k1 * (a * t) + k0 * tt;
    let bound = a2 * (a * a) + a1 * (a * t) + a0 * tt;
    let pp = p * p;
    assert((a * a) * pp == n2 && (a * t) * pp == n1 && tt * pp == n0) by (nonlinear_arith)
        requires
            n2 == m * m,
            n1 == m * tp,
            n0 == tp * tp,
            m == a * p,
            tp == t * p,
            tt == t * t,
            pp == p * p,
    ;
    assert(target * pp == k2 * n2 + k1 * n1 + k0 * n0) by {
        lemma_three_times(k2, a * a, k1, a * t, k0, tt, pp);
    }
    assert(bound * pp == a2 * n2 + a1 * n1 + a0 * n0) by {
        lemma_three_times(a2, a * a, a1, a * t, a0, tt, pp);
    }
    assert(n2 >= 0 && n1 >= 0 && n0 >= 0) by (nonlinear_arith)
        requires
            n2 == m * m,
            n1 == m * tp,
            n0 == tp * tp,
            m >= 0,
            tp > 0,
    ;
    lemma_scaled_difference(k2, q2, n2, 36);
    lemma_scaled_difference(k1, q1, n1, 36);
    lemma_scaled(a2, q2, 4 * n2);
    lemma_scaled(a1, q1, 4 * n1);
    assert(a2 * (4 * n2) == 4 * (a2 * n2) && a1 * (4 * n1) == 4 * (a1 * n1)) by (nonlinear_arith);
    assert(a2 * n2 >= 0 && a1 * n1 >= 0 && a0 * n0 >= 0) by (nonlinear_arith)
        requires
            a2 >= 0,
            a1 >= 0,
            a0 >= 0,
            n2 >= 0,
            n1 >= 0,
            n0 >= 0,
    ;
    let yy = (d * y) * tt;
    assert(k * abs(yy * p - target * pp) <= 128 * (bound * pp));
    let z = yy - target * p;
    assert(z * p == yy * p - target * pp) by (nonlinear_arith)
        requires
            z == yy - target * p,
            pp == p * p,
    ;
    lemma_abs_product(z, p);
    let uz = abs(z) as int;
    assert(k * uz <= 128 * (bound * p)) by (nonlinear_arith)
        requires
            k * (uz * p) <= 128 * (bound * pp),
            pp == p * p,
            p > 0,
    {
        assert(k * (uz * p) == (k * uz) * p);
        assert(128 * (bound * pp) == (128 * (bound * p)) * p);
    }
}

/// A sum of three products, scaled.
proof fn lemma_three_times(a: int, x: int, b: int, y: int, c: int, z: int, f: int)
    ensures
        (a * x + b * y + c * z) * f == a * (x * f) + b * (y * f) + c * (z * f),
{
    let (u, v, w) = (a * x, b * y, c * z);
    assert((u + v + w) * f == u * f + v * f + w * f) by (nonlinear_arith);
    assert((a * x) * f == a * (x * f) && (b * y) * f == b * (y * f) && (c * z) * f == c * (z * f))
        by (nonlinear_arith);
}

/// A bounded difference, scaled.
proof fn lemma_scaled_difference(c: int, q: int, n: int, f: int)
    requires
        0x20_0000_0000_0000 * abs(q - n) <= f * n,
    ensures
        0x20_0000_0000_0000 * abs(c * q - c * n) <= f * (abs(c) * n),
{
    let k = 0x20_0000_0000_0000int;
    assert(c * q - c * n == c * (q - n)) by (nonlinear_arith);
    lemma_abs_product(c, q - n);
    let (ac, u) = (abs(c) as int, abs(q - n) as int);
    assert(k * (ac * u) <= f * (ac * n)) by (nonlinear_arith)
        requires
            k * u <= f * n,
            ac >= 0,
    {
        assert(ac * (k * u) <= ac * (f * n));
        assert(ac * (k * u) == k * (ac * u));
        assert(ac * (f * n) == f * (ac * n));
    }
}

/// The polynomial prefill time of a number of tokens is, to one part in two to the
/// power of 46, the square of the number times 4.209989e-07 milliseconds, plus the
/// number times 1.518344e-02, plus 16.50142. This is for every number of tokens.
pub proof fn law_prefill_formula_exact(tokens: nat)
    requires
        tokens <= u64::MAX,
    ensures
        prefill_formula(tokens).finite(),
        ({
            let n = tokens as int;
            let exact = 4_209_989 * (n * n) + 151_834_400_000 * n + 165_014_200_000_000;
            0x4000_0000_0000 * abs(
                10_000_000_000_000 * prefill_formula(tokens).value() - exact * pow2(1074),
            ) <= exact * pow2(1074)
        }),
{
    let p = pow2(1074) as int;
    let n = tokens as int;
    let t = ratio(tokens, 1);
    let c2 = ratio(4209989, 10_000_000_000_000);
    let c1 = ratio(1518344, 100_000_000);
    let c0 = ratio(1650142, 100_000);
    lemma_pow2_pos(1074);
    law_ratio_near(tokens, 1);
    law_ratio_near(4209989, 10_000_000_000_000);
    law_ratio_near(1518344, 100_000_000);
    law_ratio_near(1650142, 100_000);
    lemma_count_size(n, t.value());
    assert(n * p >= 0) by (nonlinear_arith)
        requires
            n >= 0,
            p > 0,
    ;
    let d = 10_000_000_000_000int;
    lemma_quadratic(c2, c1, c0, t, 4_209_989, 151_834_400_000, 165_014_200_000_000, d);
    let y = prefill_formula(tokens).value();
    assert(t.value() * 1 == t.value());
    lemma_polynomial_at_ratio(
        y,
        t.value(),
        n,
        1,
        4_209_989,
        151_834_400_000,
        165_014_200_000_000,
        d,
    );
    assert(n * 1 == n);
}

/// The size of a number of tokens as a double.
proof fn lemma_count_size(n: int, v: int)
    requires
        0 <= n <= u64::MAX,
        0x20_0000_0000_0000 * abs(v * 1 - n * pow2(1074)) <= n * pow2(1074),
    ensures
        abs(v) <= pow2(1500),
{
    let p = pow2(1074) as int;
    lemma_pow2_pos(1074);
    lemma2_to64();
    lemma_pow2_adds(65, 1074);
    lemma_pow2_adds(1, 64);
    lemma_pow2_strictly_increases(1139, 1500);
    assert(0 <= n * p <= pow2(64) * p) by (nonlinear_arith)
        requires
            0 <= n <= pow2(64),
            p > 0,
    ;
    assert((2 * pow2(64)) * p == 2 * (pow2(64) * p)) by (nonlinear_arith);
}

/// A quotient of two rounded counts, against the exact ratio.
proof fn lemma_share_error(x: int, av: int, tv: int, a: int, t: int, p: int)
    requires
        a >= 1,
        t >= 1,
        p > 0,
        x >= 0,
        av >= 0,
        (3 * 0x20_0000_0000_0000) * t <= p,
        0x20_0000_0000_0000 * abs(av - a * p) <= a * p,
        0x20_0000_0000_0000 * abs(tv - t * p) <= t * p,
        0x20_0000_0000_0000 * abs(x * tv - av * p) <= av * p + 0x20_0000_0000_0000 * tv,
    ensures
        0x20_0000_0000_0000 * abs(x * t - a * p) <= 12 * (a * p),
{
    let k = 0x20_0000_0000_0000int;
    let (m, n) = (a * p, t * p);
    assert(m >= p && n >= p) by (nonlinear_arith)
        requires
            m == a * p,
            n == t * p,
            a >= 1,
            t >= 1,
            p > 0,
    ;
    assert(av <= 2 * m && tv <= 2 * n && n <= 2 * tv);
    let mp = m * p;
    assert(0 <= av * p <= 2 * mp) by (nonlinear_arith)
        requires
            mp == m * p,
            0 <= av <= 2 * m,
            p > 0,
    ;
    assert(x * tv <= 2 * (av * p) + tv);
    assert(0 <= x * n <= 2 * (x * tv)) by (nonlinear_arith)
        requires
            x >= 0,
            0 <= n <= 2 * tv,
    ;
    // Three contributions.
    let (e1, e2, e3) = (x * tv - av * p, av - m, n - tv);
    let z = x * t - m;
    assert(z * p == e1 + e2 * p + x * e3) by {
        assert(e2 * p == av * p - mp) by (nonlinear_arith)
            requires
                e2 == av - m,
                mp == m * p,
        ;
        assert(x * e3 == x * n - x * tv) by (nonlinear_arith)
            requires
                e3 == n - tv,
        ;
        assert(z * p == x * n - mp) by (nonlinear_arith)
            requires
                z == x * t - m,
                n == t * p,
                mp == m * p,
        ;
    }
    lemma_abs_product(e2, p);
    lemma_abs_product(x, e3);
    lemma_abs_product(z, p);
    let (u2, u3, uz) = (abs(e2) as int, abs(e3) as int, abs(z) as int);
    assert(k * (u2 * p) <= mp) by (nonlinear_arith)
        requires
            k * u2 <= m,
            p > 0,
            mp == m * p,
    ;
    assert(k * (x * u3) <= x * n) by (nonlinear_arith)
        requires
            k * u3 <= n,
            x >= 0,
    ;
    assert((3 * k) * n <= mp) by (nonlinear_arith)
        requires
            (3 * k) * t <= p,
            n == t * p,
            mp == m * p,
            m >= p,
            p > 0,
    {
        assert(((3 * k) * t) * p <= p * p);
        assert((3 * k) * n == ((3 * k) * t) * p);
        assert(p * p <= m * p);
    }
    assert(k * (uz * p) <= 12 * mp);
    assert(k * uz <= 12 * m) by (nonlinear_arith)
        requires
            k * (uz * p) <= 12 * mp,
            mp == m * p,
            p > 0,
    {
        assert(k * (uz * p) == (k * uz) * p);
    }
}

/// The share of active KV tokens, as a double.
proof fn lemma_share_near(active: nat, total: nat)
    requires
        active <= u64::MAX,
        0 < total <= u64::MAX,
    ensures
        active_share(active, total).finite(),
        active_share(active, total).value() >= 0,
        0x20_0000_0000_0000 * abs(
            active_share(active, total).value() * total - active * pow2(1074),
        ) <= 12 * (active * pow2(1074)),
        abs(active_share(active, total).value()) <= pow2(1500),
{
    let p = pow2(1074) as int;
    let a = ratio(active, 1);
    let t = ratio(total, 1);
    let (av, tv) = (a.value(), t.value());
    lemma_pow2_pos(1074);
    law_ratio_near(active, 1);
    law_ratio_near(total, 1);
    assert(av * 1 == av && tv * 1 == tv);
    lemma2_to64();
    lemma2_to64_rest();
    lemma_pow2_adds(65, 1074);
    lemma_pow2_adds(1, 64);
    lemma_pow2_adds(1139, 1);
    lemma_pow2_strictly_increases(1140, 1500);
    lemma_pow2_strictly_increases(1139, 1500);
    lemma_pow2_strictly_increases(1500, 2095);
    lemma_pow2_adds(1, 2095);
    lemma_pow2_strictly_increases(120, 1074);
    lemma_pow2_adds(64, 56);
    assert(0 <= active * p <= pow2(64) * p) by (nonlinear_arith)
        requires
            0 <= active <= pow2(64),
            p > 0,
    ;
    assert(total * p >= p) by (nonlinear_arith)
        requires
            total >= 1,
            p > 0,
    ;
    assert((2 * pow2(64)) * p == 2 * (pow2(64) * p)) by (nonlinear_arith);
    assert(0 <= av <= pow2(1139));
    assert(2 * tv >= p);
    assert(av * pow2(1074) <= tv * pow2(2096)) by (nonlinear_arith)
        requires
            0 <= av <= pow2(2095),
            2 * tv >= p,
            p == pow2(1074),
            pow2(2096) == 2 * pow2(2095),
    {
        assert(av * p <= pow2(2095) * p);
        assert(pow2(2095) * p <= pow2(2095) * (2 * tv));
        assert(pow2(2095) * (2 * tv) == tv * (2 * pow2(2095)));
    }
    lemma_quotient_near(a, t);
    let x = active_share(active, total).value();
    let n = total as int;
    if active == 0 {
        assert(active * p == 0) by (nonlinear_arith)
            requires
                active == 0,
        ;
        lemma_idle_share(a, t);
        assert(0 * n == 0);
    } else {
        assert((3 * 0x20_0000_0000_0000) * n <= p) by (nonlinear_arith)
            requires
                n <= pow2(64),
                pow2(120) == pow2(64) * pow2(56),
                pow2(56) >= 3 * 0x20_0000_0000_0000,
                pow2(120) < p,
        ;
        lemma_share_error(x, av, tv, active as int, n, p);
    }
    assert(x <= x * n) by (nonlinear_arith)
        requires
            x >= 0,
            n >= 1,
    ;
}

/// No active tokens are no share.
proof fn lemma_idle_share(a: Double, t: Double)
    requires
        a.finite(),
        t.finite(),
        a.value() == 0,
        t.value() > 0,
    ensures
        quotient(a, t).value() == 0,
{
    lemma_units_zero();
    assert(units(0) == abs(0));
    let w = t.value();
    assert(0 * w == 0 && 0 * pow2(1074) == 0);
    law_quotient_exact(a, t, 0);
}

/// The share of active KV tokens is, to one part in two to the power of 49, the
/// number of active ones divided by the total, and one where there are none at all.
pub proof fn law_active_share_exact(active: nat, total: nat)
    requires
        active <= u64::MAX,
        total <= u64::MAX,
    ensures
        active_share(active, total).finite(),
        total > 0 ==> 0x2_0000_0000_0000 * abs(
            active_share(active, total).value() * total - active * pow2(1074),
        ) <= active * pow2(1074),
        total == 0 ==> active_share(active, total).value() == pow2(1074),
{
    lemma_pow2_pos(1074);
    assert(active * pow2(1074) >= 0) by (nonlinear_arith)
        requires
            active >= 0,
            pow2(1074) > 0,
    ;
    if total > 0 {
        lemma_share_near(active, total);
    } else {
        lemma_one();
    }
}

/// The polynomial decode time at a share is -25.74 milliseconds times the square of
/// the share, plus 54.01 times the share, plus 5.74, to one part in two to the power
/// of 49 of the sizes of the three terms together. The share may be negative or
/// above one.
pub proof fn law_decode_formula_at_share(share: Double)
    requires
        share.finite(),
        abs(share.value()) <= pow2(1500),
    ensures
        decode_formula(share).finite(),
        ({
            let p = pow2(1074) as int;
            let x = share.value();
            0x2_0000_0000_0000 * abs(
                (100 * decode_formula(share).value()) * p - (5401 * (x * p) + 574 * (p * p) - 2574
                    * (x * x)),
            ) <= 2574 * (x * x) + 5401 * abs(x * p) + 574 * (p * p)
        }),
{
    let c2 = ratio(2574, 100);
    lemma_pow2_pos(1074);
    law_ratio_near(2574, 100);
    law_ratio_near(5401, 100);
    law_ratio_near(574, 100);
    lemma_signed(!c2.negative(), c2.magnitude());
    let minus = opposite(c2);
    lemma_quadratic(minus, ratio(5401, 100), ratio(574, 100), share, -2574, 5401, 574, 100);
}

/// The polynomial decode time of active KV tokens out of a total is -25.74
/// milliseconds times the square of their ratio, plus 54.01 times the ratio, plus
/// 5.74, to one part in two to the power of 46 of the sizes of the three terms
/// together. This is for all numbers of tokens, as long as the total is not zero.
pub proof fn law_decode_formula_exact(active: nat, total: nat)
    requires
        active <= u64::MAX,
        0 < total <= u64::MAX,
    ensures
        decode_formula(active_share(active, total)).finite(),
        ({
            let (a, t) = (active as int, total as int);
            let y = decode_formula(active_share(active, total)).value();
            0x4000_0000_0000 * abs(
                (100 * y) * (t * t) - (5401 * (a * t) + 574 * (t * t) - 2574 * (a * a)) * pow2(1074),
            ) <= (2574 * (a * a) + 5401 * (a * t) + 574 * (t * t)) * pow2(1074)
        }),
{
    let c2 = ratio(2574, 100);
    let share = active_share(active, total);
    lemma_pow2_pos(1074);
    law_ratio_near(2574, 100);
    law_ratio_near(5401, 100);
    law_ratio_near(574, 100);
    lemma_signed(!c2.negative(), c2.magnitude());
    let minus = opposite(c2);
    lemma_share_near(active, total);
    lemma_quadratic(minus, ratio(5401, 100), ratio(574, 100), share, -2574, 5401, 574, 100);
    lemma_polynomial_at_ratio(
        decode_formula(share).value(),
        share.value(),
        active as int,
        total as int,
        -2574,
        5401,
        574,
        100,
    );
}

/// The decode polynomial at a share that is no number, or that is infinite, has no
/// finite time: the terms of an infinite positive share cancel to no number, and those
/// of a negative one add up to minus infinity.
pub proof fn law_decode_formula_not_finite(share: Double)
    ensures
        share.nan() ==> decode_formula(share).nan(),
        share.infinite() && !share.negative() ==> decode_formula(share).nan(),
        share.infinite() && share.negative() ==> decode_formula(share).infinite()
            && decode_formula(share).negative(),
{
    let c2 = ratio(2574, 100);
    lemma_pow2_pos(1074);
    lemma_units_zero();
    law_ratio_near(2574, 100);
    law_ratio_near(5401, 100);
    law_ratio_near(574, 100);
    lemma_signed(false, round_ratio(2574 * pow2(1074), 100));
    lemma_signed(false, round_ratio(5401 * pow2(1074), 100));
    lemma_signed(true, c2.magnitude());
    lemma_signed(true, INFINITY as nat);
    lemma_signed(false, INFINITY as nat);
}

} // verus!
