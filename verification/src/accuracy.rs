//! How far rounded results are from exact ones.

use vstd::arithmetic::mul::{
    lemma_mul_inequality, lemma_mul_is_associative, lemma_mul_strictly_positive,
};
use vstd::arithmetic::power2::{
    lemma2_to64, lemma2_to64_rest, lemma_pow2_adds, lemma_pow2_pos, lemma_pow2_strictly_increases,
    lemma_pow2_unfold, pow2,
};
use vstd::math::abs;
use vstd::prelude::*;

use crate::axis::{
    cell, lemma_cell_exists, lemma_cell_unique, position, serves, valid_axis, InterpolationError,
};
use crate::double::{
    difference, lemma_abs_product, lemma_signed, opposite, product, quotient, sum, Double,
};
use crate::laws::{
    is_multilinear, law_position, lemma_difference, lemma_multilinear_slopes, lemma_time_is_blend,
    multilinear, slope_along,
};
use crate::rounding::{
    distance, exponent, law_round_exact, law_round_monotone, law_round_nearest,
    lemma_nearest_integer, lemma_nearest_integer_cancel, lemma_round_bounded, lemma_round_zero,
    lemma_scale, lemma_scale_unique, lemma_significand_at_scale, lemma_units_at_scale,
    lemma_units_increase, lemma_units_zero, nearest_integer, round_ratio, round_unbounded, scale,
    significand, units, BINADE, INFINITY,
};
use crate::surface::{on_line, Grid, PrefillInterp3D};

verus! {

broadcast use lemma_round_bounded;

/// The magnitude of a power of two.
proof fn lemma_power_magnitude(e: nat)
    requires
        52 <= e,
    ensures
        units((e - 51) as nat * BINADE as nat) == pow2(e),
        e <= 2097 ==> (e - 51) * BINADE < INFINITY,
{
    let m = (e - 51) as nat * BINADE as nat;
    assert(m / BINADE as nat == e - 51);
    assert(exponent(m) == e - 52);
    assert(significand(m) == BINADE);
    lemma2_to64_rest();
    lemma_pow2_adds(52, (e - 52) as nat);
}

/// A ratio that is at most a power of two is rounded by at most half the spacing
/// of the doubles below that power, and not beyond that power.
pub proof fn lemma_round_error(n: nat, d: nat, e: nat)
    requires
        d > 0,
        53 <= e <= 2097,
        n <= d * pow2(e),
    ensures
        2 * distance(units(round_ratio(n, d)) * d, n) <= d * pow2((e - 53) as nat),
        units(round_ratio(n, d)) <= pow2(e),
        round_ratio(n, d) < INFINITY,
{
    let top = (e - 51) as nat * BINADE as nat;
    lemma_power_magnitude(e);
    law_round_exact(top, d);
    assert(n * d <= (units(top) * d) * d) by (nonlinear_arith)
        requires
            n <= d * units(top),
    ;
    law_round_monotone(n, d, units(top) * d, d);
    let r = round_ratio(n, d);
    if r < top {
        lemma_units_increase(r, top);
    }
    law_round_nearest(n, d, top);
    let k = scale(n, d);
    let step = d * pow2(k);
    let q = nearest_integer(n, step);
    lemma_significand_at_scale(n, d);
    lemma_units_at_scale(k, q);
    assert(units(r) * d == q * step) by (nonlinear_arith)
        requires
            units(r) == q * pow2(k),
            step == d * pow2(k),
    ;
    lemma_half_step(n, step);
    lemma_scale(n, d);
    lemma_pow2_pos((e - 53) as nat);
    if n == d * pow2(e) {
        assert(distance(units(r) * d, n) == 0) by {
            assert(units(top) * d == n) by (nonlinear_arith)
                requires
                    n == d * units(top),
            ;
        }
        assert(0 <= d * pow2((e - 53) as nat));
    } else {
        if k > e - 53 {
            if e < k + 52 {
                lemma_pow2_strictly_increases(e, (k + 52) as nat);
            }
            assert(d * pow2(e) <= d * pow2((k + 52) as nat)) by (nonlinear_arith)
                requires
                    pow2(e) <= pow2((k + 52) as nat),
            ;
            assert(false);
        }
        if k < e - 53 {
            lemma_pow2_strictly_increases(k, (e - 53) as nat);
        }
        assert(step <= d * pow2((e - 53) as nat)) by (nonlinear_arith)
            requires
                step == d * pow2(k),
                pow2(k) <= pow2((e - 53) as nat),
        ;
    }
}

/// The nearest multiple is at most half a step away.
proof fn lemma_half_step(n: nat, step: nat)
    requires
        step > 0,
    ensures
        2 * distance(nearest_integer(n, step) * step, n) <= step,
{
    let q = n / step;
    let r = n % step;
    vstd::arithmetic::div_mod::lemma_fundamental_div_mod(n as int, step as int);
    assert(q * step == step * q) by (nonlinear_arith);
    assert((q + 1) * step == q * step + step) by (nonlinear_arith);
}

/// A whole number of units is rounded by at most a part in two to the power of 53.
pub proof fn lemma_round_relative(n: nat)
    requires
        round_ratio(n, 1) < INFINITY,
    ensures
        0x20_0000_0000_0000 * distance(units(round_ratio(n, 1)), n) <= n,
{
    law_round_nearest(n, 1, 0);
    let k = scale(n, 1);
    let step = 1 * pow2(k);
    let q = nearest_integer(n, step);
    lemma_significand_at_scale(n, 1);
    lemma_units_at_scale(k, q);
    lemma_half_step(n, step);
    if k == 0 {
        lemma2_to64();
        lemma_nearest_integer(n, 1, n, 0);
    }
}

/// The error of a sum that is bounded by a power of two.
pub proof fn lemma_sum_error(a: Double, b: Double, e: nat)
    requires
        a.finite(),
        b.finite(),
        53 <= e <= 2097,
        abs(a.value() + b.value()) <= pow2(e),
    ensures
        sum(a, b).finite(),
        2 * abs(sum(a, b).value() - (a.value() + b.value())) <= pow2((e - 53) as nat),
        abs(sum(a, b).value()) <= pow2(e),
{
    let exact = a.value() + b.value();
    let n = abs(exact);
    lemma_units_zero();
    lemma_signed(a.negative() && b.negative(), 0);
    lemma_pow2_pos(e);
    lemma_round_error(n, 1, e);
    lemma_signed(exact < 0, round_ratio(n, 1));
}

/// The error of a difference that is bounded by a power of two.
pub proof fn lemma_difference_error(a: Double, b: Double, e: nat)
    requires
        a.finite(),
        b.finite(),
        53 <= e <= 2097,
        abs(a.value() - b.value()) <= pow2(e),
    ensures
        difference(a, b).finite(),
        2 * abs(difference(a, b).value() - (a.value() - b.value())) <= pow2((e - 53) as nat),
        abs(difference(a, b).value()) <= pow2(e),
{
    lemma_signed(!b.negative(), b.magnitude());
    lemma_sum_error(a, opposite(b), e);
}

/// The error of a product that is bounded by a power of two.
pub proof fn lemma_product_error(a: Double, b: Double, e: nat)
    requires
        a.finite(),
        b.finite(),
        53 <= e <= 2097,
        abs(a.value() * b.value()) <= pow2(1074) * pow2(e),
    ensures
        product(a, b).finite(),
        2 * abs(product(a, b).value() * pow2(1074) - a.value() * b.value()) <= pow2(1074) * pow2(
            (e - 53) as nat,
        ),
        abs(product(a, b).value()) <= pow2(e),
{
    let p = pow2(1074);
    let n = units(a.magnitude()) * units(b.magnitude());
    let negative = a.negative() != b.negative();
    lemma_pow2_pos(1074);
    lemma_units_zero();
    lemma_abs_product(a.value(), b.value());
    lemma_round_error(n, p, e);
    let m = round_ratio(n, p);
    lemma_signed(negative, m);
    let r = product(a, b).value();
    let v = units(m);
    assert(a.value() * b.value() == if negative {
        -(n as int)
    } else {
        n as int
    }) by {
        if a.magnitude() > 0 {
            lemma_units_increase(0, a.magnitude());
        }
        if b.magnitude() > 0 {
            lemma_units_increase(0, b.magnitude());
        }
    }
    assert((-(v as int)) * p == -(v * p)) by (nonlinear_arith);
}

/// The error of a quotient that is bounded by a power of two.
pub proof fn lemma_quotient_error(a: Double, b: Double, e: nat)
    requires
        a.finite(),
        b.finite(),
        b.value() > 0,
        53 <= e <= 2097,
        abs(a.value()) * pow2(1074) <= b.value() * pow2(e),
    ensures
        quotient(a, b).finite(),
        2 * abs(quotient(a, b).value() * b.value() - a.value() * pow2(1074)) <= b.value() * pow2(
            (e - 53) as nat,
        ),
        abs(quotient(a, b).value()) <= pow2(e),
{
    let p = pow2(1074);
    let d = units(b.magnitude());
    let n = units(a.magnitude()) * p;
    lemma_units_zero();
    lemma_round_error(n, d, e);
    let m = round_ratio(n, d);
    lemma_signed(a.negative(), m);
    let v = units(m);
    let u = units(a.magnitude());
    assert((-(v as int)) * d == -(v * d)) by (nonlinear_arith);
    assert((-(u as int)) * p == -(u * p)) by (nonlinear_arith);
}

/// Rounding commutes with scaling by a power of two.
proof fn lemma_round_scaled(n: nat, a: nat)
    ensures
        units(round_unbounded(n * pow2(a), 1)) == units(round_unbounded(n, 1)) * pow2(a),
{
    let k = scale(n, 1);
    let c = pow2(a);
    let big = n * c;
    lemma_pow2_pos(a);
    lemma_scale(n, 1);
    lemma_significand_at_scale(n, 1);
    lemma_significand_at_scale(big, 1);
    if k > 0 {
        lemma_pow2_adds(k + 53, a);
        lemma_pow2_adds((k + 52) as nat, a);
        lemma_pow2_adds(k, a);
        assert(n * c < pow2(k + 53) * c && n * c >= pow2((k + 52) as nat) * c) by (nonlinear_arith)
            requires
                n < pow2(k + 53),
                n >= pow2((k + 52) as nat),
                c > 0,
        ;
        lemma_scale_unique(big, 1, k + a);
        assert(1 * pow2(k + a) == pow2(k) * c);
        lemma_pow2_pos(k);
        lemma_nearest_integer_cancel(n, pow2(k), c);
        let q = nearest_integer(n, pow2(k));
        lemma_units_at_scale(k, q);
        lemma_units_at_scale(k + a, q);
        assert(q * (pow2(k) * c) == (q * pow2(k)) * c) by (nonlinear_arith);
    } else {
        // Below two to the power of 53 nothing is rounded.
        lemma2_to64();
        lemma_nearest_integer(n, 1, n, 0);
        lemma_units_at_scale(0, n);
        assert(units(round_unbounded(n, 1)) == n * pow2(0));
        let j = scale(big, 1);
        lemma_scale(big, 1);
        lemma_pow2_adds(53, a);
        assert(n * c < pow2(53) * c) by (nonlinear_arith)
            requires
                n < pow2(53),
                c > 0,
        ;
        if j > a {
            if 53 + a < j + 52 {
                lemma_pow2_strictly_increases(53 + a, (j + 52) as nat);
            }
            assert(false);
        }
        lemma_pow2_adds((a - j) as nat, j);
        let q = n * pow2((a - j) as nat);
        assert(big == q * pow2(j)) by (nonlinear_arith)
            requires
                big == n * c,
                c == pow2((a - j) as nat) * pow2(j),
                q == n * pow2((a - j) as nat),
        ;
        lemma_pow2_pos(j);
        assert(1 * pow2(j) == pow2(j));
        lemma_nearest_integer(big, pow2(j), q, 0);
        lemma_units_at_scale(j, q);
    }
}

/// The position of a coordinate between two points, as it is computed.
pub open spec fn located_at(value: Double, lower: Double, upper: Double) -> Double {
    quotient(difference(value, lower), difference(upper, lower))
}

/// Whether the distance of a coordinate from a cell's lower point is at most the
/// cell's width times two to the power of `a`, with both within the range of
/// finite doubles.
pub open spec fn within_widths(value: Double, lower: Double, upper: Double, a: nat) -> bool {
    &&& value.finite() && lower.finite() && upper.finite()
    &&& lower.value() < upper.value()
    &&& difference(value, lower).finite()
    &&& difference(upper, lower).finite()
    &&& abs(value.value() - lower.value()) <= (upper.value() - lower.value()) * pow2(a)
}

/// A computed position is off by at most three parts in two to the power of 53 of
/// the bound on it.
pub proof fn law_position_error(value: Double, lower: Double, upper: Double, a: nat)
    requires
        within_widths(value, lower, upper, a),
        a <= 1023,
    ensures
        located_at(value, lower, upper).finite(),
        abs(located_at(value, lower, upper).value()) <= pow2(1074) * pow2(a),
        ({
            let width = upper.value() - lower.value();
            let exact = (value.value() - lower.value()) * pow2(1074);
            abs(located_at(value, lower, upper).value() * width - exact) * 0x20_0000_0000_0000
                <= 3 * (width * (pow2(1074) * pow2(a)))
        }),
{
    let num = difference(value, lower);
    let den = difference(upper, lower);
    let x = value.value() - lower.value();
    let w = upper.value() - lower.value();
    let u = num.value();
    let v = den.value();
    let p = pow2(1074) as int;
    let c = pow2(a) as int;
    let t = located_at(value, lower, upper).value();
    lemma_pow2_pos(1074);
    lemma_pow2_pos(a);
    lemma_difference_rounds(value, lower);
    lemma_difference_rounds(upper, lower);
    lemma_round_relative(abs(x));
    lemma_round_relative(abs(w));
    // The rounded distance is at most the rounded width, scaled.
    lemma_round_scaled(abs(w), a);
    assert(abs(x) * 1 <= (abs(w) * pow2(a)) * 1);
    law_round_monotone(abs(x), 1, abs(w) * pow2(a), 1);
    law_round_nearest(abs(x), 1, 0);
    law_round_nearest(abs(w), 1, 0);
    let rx = round_unbounded(abs(x), 1);
    let rw = round_unbounded(abs(w) * pow2(a), 1);
    if rx < rw {
        lemma_units_increase(rx, rw);
    }
    assert(abs(u) <= v * c);
    lemma_pow2_adds(1074, a);
    assert(abs(u) * pow2(1074) <= v * pow2(1074 + a)) by (nonlinear_arith)
        requires
            abs(u) <= v * c,
            pow2(1074 + a) == p * c,
            p == pow2(1074),
            p > 0,
    ;
    lemma_quotient_error(num, den, 1074 + a);
    // t w - x p == t (w - v) + (t v - u p) + (u - x) p, term by term.
    let k = 0x20_0000_0000_0000int;
    let bound = w * (p * c);
    lemma2_to64_rest();
    lemma_pow2_adds((1021 + a) as nat, 53);
    assert(abs(t * (w - v)) * k <= bound) by (nonlinear_arith)
        requires
            abs(t) <= p * c,
            k * abs(w - v) <= w,
            k == 0x20_0000_0000_0000int,
            w > 0,
            bound == w * (p * c),
    {
        assert(abs(t * (w - v)) == abs(t) * abs(w - v));
        assert(abs(t) * (abs(w - v) * k) <= (p * c) * (abs(w - v) * k));
        assert((p * c) * (abs(w - v) * k) <= (p * c) * w);
    }
    assert(abs((u - x) * p) * k <= bound) by (nonlinear_arith)
        requires
            k * abs(u - x) <= w * c,
            p > 0,
            bound == w * (p * c),
    {
        assert(abs((u - x) * p) == abs(u - x) * p);
        assert((k * abs(u - x)) * p <= (w * c) * p);
    }
    assert(v <= 2 * w);
    assert(abs(t * v - u * p) * k <= bound) by (nonlinear_arith)
        requires
            2 * abs(t * v - u * p) <= v * pow2((1074 + a - 53) as nat),
            pow2((1021 + a) as nat) * k == p * c,
            v <= 2 * w,
            v > 0,
            k == 0x20_0000_0000_0000int,
            bound == w * (p * c),
            p > 0,
            c > 0,
    {
        let h = pow2((1021 + a) as nat);
        assert((1074 + a - 53) as nat == (1021 + a) as nat);
        assert(2 * (abs(t * v - u * p) * k) <= (v * h) * k);
        assert((v * h) * k == v * (p * c));
        assert(v * (p * c) <= (2 * w) * (p * c));
    }
    assert(t * w - x * p == t * (w - v) + (t * v - u * p) + (u - x) * p) by (nonlinear_arith);
}

/// A difference of finite numbers that is finite is the rounded exact difference.
proof fn lemma_difference_rounds(a: Double, b: Double)
    requires
        a.finite(),
        b.finite(),
        difference(a, b).finite(),
    ensures
        ({
            let exact = a.value() - b.value();
            let r = difference(a, b);
            &&& round_ratio(abs(exact), 1) < INFINITY
            &&& abs(r.value()) == units(round_ratio(abs(exact), 1))
            &&& abs(r.value() - exact) == distance(units(round_ratio(abs(exact), 1)), abs(exact))
            &&& exact > 0 ==> r.value() > 0
        }),
{
    let exact = a.value() - b.value();
    lemma_signed(!b.negative(), b.magnitude());
    lemma_units_zero();
    lemma_difference(a, b);
    if exact == 0 {
        lemma_round_zero(1);
    } else {
        lemma_signed(exact < 0, round_ratio(abs(exact), 1));
        lemma_units_increase(0, round_ratio(abs(exact), 1));
    }
}

/// What is computed for a point on a line, with a rounded position `t`.
proof fn lemma_line_error(left: Double, right: Double, t: Double, g: nat, a: nat)
    requires
        left.finite(),
        right.finite(),
        t.finite(),
        abs(left.value()) <= pow2(g + 53),
        abs(right.value()) <= pow2(g + 53),
        abs(t.value()) <= pow2(1074) * pow2(a),
        g + a <= 2042,
    ensures
        on_line(left, right, t).finite(),
        abs(on_line(left, right, t).value()) <= pow2(g + a + 55),
        abs(
            (on_line(left, right, t).value() - left.value()) * pow2(1074) - (right.value()
                - left.value()) * t.value(),
        ) <= 4 * (pow2(g + a) * pow2(1074)),
{
    let p = pow2(1074) as int;
    let c = pow2(a) as int;
    let l = left.value();
    let r = right.value();
    let w = t.value();
    lemma_pow2_pos(1074);
    lemma_pow2_pos(a);
    lemma_pow2_pos(g);
    lemma_pow2_unfold(g + 54);
    lemma_pow2_unfold(g + 1);
    lemma_difference_error(right, left, g + 54);
    let rise = difference(right, left);
    let h = rise.value();
    assert(abs(h - (r - l)) <= pow2(g));
    lemma_pow2_adds(g + 54, a);
    assert(abs(h * w) <= pow2(1074) * pow2(g + 54 + a)) by (nonlinear_arith)
        requires
            abs(h) <= pow2(g + 54),
            abs(w) <= p * c,
            pow2(g + 54 + a) == pow2(g + 54) * c,
            p == pow2(1074),
            p > 0,
            c > 0,
    {
        assert(abs(h * w) == abs(h) * abs(w));
        assert(abs(h) * abs(w) <= pow2(g + 54) * (p * c));
    }
    lemma_product_error(rise, t, g + 54 + a);
    let step = product(rise, t);
    let s = step.value();
    lemma_pow2_unfold(g + a + 55);
    lemma_pow2_unfold(g + a + 1);
    lemma_pow2_unfold(g + a + 2);
    if a > 0 {
        lemma_pow2_strictly_increases(g + 53, g + 53 + a);
    }
    lemma_pow2_unfold(g + 54 + a);
    assert((g + 54 + a - 53) as nat == g + a + 1);
    assert((g + a + 55 - 53) as nat == g + a + 2);
    assert(abs(l + s) <= pow2(g + a + 55));
    lemma_sum_error(left, step, g + a + 55);
    let y = on_line(left, right, t).value();
    let v = pow2(g + a) as int;
    lemma_pow2_adds(g, a);
    assert(2 * abs(s * p - h * w) <= p * (2 * v));
    assert(abs(s * p - h * w) <= v * p) by (nonlinear_arith)
        requires
            2 * abs(s * p - h * w) <= p * (2 * v),
    ;
    assert(abs(y - (l + s)) <= 2 * v);
    assert(abs((y - (l + s)) * p) <= 2 * (v * p)) by (nonlinear_arith)
        requires
            abs(y - (l + s)) <= 2 * v,
            p > 0,
    {
        assert(abs((y - (l + s)) * p) == abs(y - (l + s)) * p);
    }
    assert(abs((h - (r - l)) * w) <= v * p) by (nonlinear_arith)
        requires
            abs(h - (r - l)) <= pow2(g),
            abs(w) <= p * c,
            v == pow2(g) * c,
            p > 0,
            c > 0,
    {
        assert(abs((h - (r - l)) * w) == abs(h - (r - l)) * abs(w));
        assert(abs(h - (r - l)) * abs(w) <= pow2(g) * (p * c));
    }
    assert((y - l) * p - (r - l) * w == (y - (l + s)) * p + (s * p - h * w) + (h - (r - l)) * w)
        by (nonlinear_arith);
}

/// The sum of two ends, each weighted with the distance of a coordinate from the
/// point that the other end stands at.
pub open spec fn weighted_ends(l: int, r: int, x0: int, x1: int, x: int) -> int {
    l * (x1 - x) + r * (x - x0)
}

/// What a computed point on a line is off by, split into what the line and what
/// the position contribute.
proof fn lemma_split(y: int, l: int, r: int, x: int, w: int, t: int, p: int)
    ensures
        (y * w - (l * (w - x) + r * x)) * p == ((y - l) * p - (r - l) * t) * w + (r - l) * (t * w
            - x * p),
{
    let rise = r - l;
    assert((l * (w - x) + r * x) == l * w + rise * x) by (nonlinear_arith)
        requires
            rise == r - l,
    ;
    let u = y - l;
    assert(y * w - l * w == u * w) by (nonlinear_arith)
        requires
            u == y - l,
    ;
    let (uw, rx) = (u * w, rise * x);
    assert((uw - rx) * p == uw * p - rx * p) by (nonlinear_arith);
    assert((u * w) * p == (u * p) * w) by (nonlinear_arith);
    lemma_mul_is_associative(rise, x, p);
    assert(((y - l) * p - rise * t) * w == ((y - l) * p) * w - rise * (t * w)) by (nonlinear_arith);
    assert(rise * (t * w - x * p) == rise * (t * w) - rise * (x * p)) by (nonlinear_arith);
}

/// One axis of an interpolation: how far a point on a line is from the exact one
/// when its ends are off by `slack` and its position is computed. The exact ends
/// are `l / d` and `r / d`.
proof fn lemma_step_error(
    left: Double,
    right: Double,
    value: Double,
    lower: Double,
    upper: Double,
    g: nat,
    a: nat,
    d: int,
    l: int,
    r: int,
    slack: int,
)
    requires
        left.finite(),
        right.finite(),
        abs(left.value()) <= pow2(g + 53),
        abs(right.value()) <= pow2(g + 53),
        within_widths(value, lower, upper, a),
        a <= 1023,
        g + a <= 2042,
        d > 0,
        abs(left.value() * d - l) <= slack * d,
        abs(right.value() * d - r) <= slack * d,
    ensures
        ({
            let point = on_line(left, right, located_at(value, lower, upper));
            let width = upper.value() - lower.value();
            let exact = weighted_ends(l, r, lower.value(), upper.value(), value.value());
            &&& point.finite()
            &&& abs(point.value()) <= pow2(g + a + 55)
            &&& abs(point.value() * (d * width) - exact) <= (10 * pow2(g + a) + 3 * (slack * pow2(
                a,
            ))) * (d * width)
        }),
{
    let t = located_at(value, lower, upper);
    law_position_error(value, lower, upper, a);
    lemma_line_error(left, right, t, g, a);
    let p = pow2(1074) as int;
    let c = pow2(a) as int;
    let v = pow2(g + a) as int;
    let k = 0x20_0000_0000_0000int;
    let lv = left.value();
    let rv = right.value();
    let w = upper.value() - lower.value();
    let x = value.value() - lower.value();
    let y = on_line(left, right, t).value();
    let tv = t.value();
    lemma_pow2_pos(1074);
    lemma_pow2_pos(a);
    lemma_pow2_pos(g);
    lemma_pow2_adds(g, a);
    lemma_pow2_adds(g, 53);
    lemma2_to64_rest();
    // The point, with the ends as they are.
    let first = (y - lv) * p - (rv - lv) * tv;
    let second = tv * w - x * p;
    let near = weighted_ends(lv, rv, lower.value(), upper.value(), value.value());
    assert(abs(first * w) <= 4 * ((v * p) * w)) by (nonlinear_arith)
        requires
            abs(first) <= 4 * (v * p),
            w > 0,
    {
        assert(abs(first * w) == abs(first) * w);
    }
    let rise = abs(rv - lv) as int;
    let off = abs(second) as int;
    assert(rise * off <= 6 * ((v * p) * w)) by (nonlinear_arith)
        requires
            0 <= rise <= 2 * (pow2(g) * k),
            0 <= off,
            off * k <= 3 * (w * (p * c)),
            v == pow2(g) * c,
            k > 0,
    {
        assert(rise * off <= (2 * (pow2(g) * k)) * off);
        assert((2 * (pow2(g) * k)) * off == (2 * pow2(g)) * (off * k));
        assert((2 * pow2(g)) * (off * k) <= (2 * pow2(g)) * (3 * (w * (p * c))));
        assert((2 * pow2(g)) * (3 * (w * (p * c))) == 6 * (((pow2(g) * c) * p) * w));
    }
    lemma_abs_product(rv - lv, second);
    lemma_split(y, lv, rv, x, w, tv, p);
    assert(abs((y * w - near) * p) <= 10 * ((v * p) * w));
    assert(abs(y * w - near) <= 10 * (v * w)) by (nonlinear_arith)
        requires
            abs((y * w - near) * p) <= 10 * ((v * p) * w),
            p > 0,
    {
        assert(abs((y * w - near) * p) == abs(y * w - near) * p);
        assert(10 * ((v * p) * w) == (10 * (v * w)) * p);
    }
    // The ends, against the exact ones.
    let exact = weighted_ends(l, r, lower.value(), upper.value(), value.value());
    let left_off = lv * d - l;
    let right_off = rv * d - r;
    assert(slack >= 0) by (nonlinear_arith)
        requires
            slack * d >= 0,
            d > 0,
    ;
    assert(abs(left_off * (w - x)) <= (slack * d) * (2 * (c * w))) by (nonlinear_arith)
        requires
            abs(left_off) <= slack * d,
            abs(x) <= w * c,
            w > 0,
            c >= 1,
    {
        assert(abs(w - x) <= 2 * (c * w)) by {
            assert(w <= c * w);
        }
        assert(abs(left_off * (w - x)) == abs(left_off) * abs(w - x));
        assert(abs(left_off) * abs(w - x) <= (slack * d) * abs(w - x));
        assert((slack * d) * abs(w - x) <= (slack * d) * (2 * (c * w)));
    }
    assert(abs(right_off * x) <= (slack * d) * (c * w)) by (nonlinear_arith)
        requires
            abs(right_off) <= slack * d,
            abs(x) <= w * c,
    {
        assert(abs(right_off * x) == abs(right_off) * abs(x));
        assert(abs(right_off) * abs(x) <= (slack * d) * abs(x));
        assert((slack * d) * abs(x) <= (slack * d) * (c * w));
    }
    let v0 = w - x;
    assert((lv * v0 + rv * x) * d == (lv * v0) * d + (rv * x) * d) by (nonlinear_arith);
    assert((lv * v0) * d == (lv * d) * v0 && (rv * x) * d == (rv * d) * x) by (nonlinear_arith);
    assert((lv * d - l) * v0 == (lv * d) * v0 - l * v0) by (nonlinear_arith);
    assert((rv * d - r) * x == (rv * d) * x - r * x) by (nonlinear_arith);
    assert((slack * d) * (2 * (c * w)) + (slack * d) * (c * w) == (3 * (slack * c)) * (d * w))
        by (nonlinear_arith);
    assert(abs((y * w - near) * d) <= (10 * v) * (d * w)) by (nonlinear_arith)
        requires
            abs(y * w - near) <= 10 * (v * w),
            d > 0,
    {
        assert(abs((y * w - near) * d) == abs(y * w - near) * d);
        assert((10 * (v * w)) * d == (10 * v) * (d * w));
    }
    assert(y * (d * w) - exact == (y * w - near) * d + (near * d - exact)) by (nonlinear_arith);
    assert((10 * v + 3 * (slack * c)) * (d * w) == (10 * v) * (d * w) + (3 * (slack * c)) * (d * w))
        by (nonlinear_arith);
}

/// Interpolating between the points of a cell of an axis at the position of a
/// coordinate gives the coordinate back, up to rounding: with points of at most
/// two to the power of `m` and a coordinate at most two to the power of `a` cells
/// away, it is off by at most two to the power of `m + a - 49`.
pub proof fn law_lerp_error(axis: Seq<Double>, value: Double, i: int, m: nat, a: nat)
    requires
        0 <= i < axis.len() - 1,
        within_widths(value, axis[i], axis[i + 1], a),
        a <= 1023,
        53 <= m,
        m + a <= 2095,
        abs(axis[i].value()) <= pow2(m),
        abs(axis[i + 1].value()) <= pow2(m),
    ensures
        ({
            let point = on_line(axis[i], axis[i + 1], position(axis, value, i));
            &&& point.finite()
            &&& abs(point.value() - value.value()) <= pow2((m + a - 49) as nat)
        }),
{
    let lower = axis[i];
    let upper = axis[i + 1];
    let x0 = lower.value();
    let x1 = upper.value();
    let x = value.value();
    let g = (m - 53) as nat;
    lemma_first_error(lower, upper, value, lower, upper, g, a);
    let y = on_line(lower, upper, located_at(value, lower, upper)).value();
    let w = x1 - x0;
    let v = pow2(g + a) as int;
    assert(weighted_ends(x0, x1, x0, x1, x) == x * w) by (nonlinear_arith)
        requires
            weighted_ends(x0, x1, x0, x1, x) == x0 * (x1 - x) + x1 * (x - x0),
            w == x1 - x0,
    ;
    assert(abs(y * w - x * w) <= (10 * v) * w);
    assert(abs(y - x) <= 10 * v) by (nonlinear_arith)
        requires
            abs(y * w - x * w) <= (10 * v) * w,
            w > 0,
    {
        assert(abs(y * w - x * w) == abs(y - x) * w) by {
            assert(y * w - x * w == (y - x) * w);
        }
    }
    lemma_pow2_adds(g + a, 4);
    lemma2_to64();
    assert(10 * v <= v * 16);
}

/// Whether a coordinate is at most two to the power of `a` cells away from the
/// cell that serves it.
pub open spec fn near_cell(axis: Seq<Double>, value: Double, a: nat) -> bool {
    let i = cell(axis, value);
    within_widths(value, axis[i], axis[i + 1], a)
}

/// Whether the eight corners of a cell are finite and lie between two bounds.
pub open spec fn corners_between(grid: Grid, b: int, n: int, k: int, lo: int, hi: int) -> bool {
    forall|i: int, j: int, l: int|
        b <= i <= b + 1 && n <= j <= n + 1 && k <= l <= k + 1 ==> (#[trigger] grid.element(
            i,
            j,
            l,
        )).finite() && lo <= grid.element(i, j, l).value() <= hi
}

/// The product of the widths of the cell that serves a point.
pub open spec fn cell_volume(surface: PrefillInterp3D, x: Double, y: Double, z: Double) -> int {
    let i = cell(surface.batch_axis(), x);
    let j = cell(surface.fresh_axis(), y);
    let l = cell(surface.kv_axis(), z);
    (surface.batch_axis()[i + 1].value() - surface.batch_axis()[i].value()) * (
    surface.fresh_axis()[j + 1].value() - surface.fresh_axis()[j].value()) * (
    surface.kv_axis()[l + 1].value() - surface.kv_axis()[l].value())
}

/// The exact trilinear interpolation of a point times the volume of its cell: the
/// corners, each weighted with the distances of the point from the opposite faces.
pub open spec fn weighted_corners(
    surface: PrefillInterp3D,
    x: Double,
    y: Double,
    z: Double,
) -> int {
    let i = cell(surface.batch_axis(), x);
    let j = cell(surface.fresh_axis(), y);
    let l = cell(surface.kv_axis(), z);
    let g = surface.times();
    let x0 = surface.batch_axis()[i].value();
    let x1 = surface.batch_axis()[i + 1].value();
    let y0 = surface.fresh_axis()[j].value();
    let y1 = surface.fresh_axis()[j + 1].value();
    let z0 = surface.kv_axis()[l].value();
    let z1 = surface.kv_axis()[l + 1].value();
    let xv = x.value();
    let yv = y.value();
    let c00 = weighted_ends(g.element(i, j, l).value(), g.element(i + 1, j, l).value(), x0, x1, xv);
    let c01 = weighted_ends(
        g.element(i, j, l + 1).value(),
        g.element(i + 1, j, l + 1).value(),
        x0,
        x1,
        xv,
    );
    let c10 = weighted_ends(
        g.element(i, j + 1, l).value(),
        g.element(i + 1, j + 1, l).value(),
        x0,
        x1,
        xv,
    );
    let c11 = weighted_ends(
        g.element(i, j + 1, l + 1).value(),
        g.element(i + 1, j + 1, l + 1).value(),
        x0,
        x1,
        xv,
    );
    weighted_ends(
        weighted_ends(c00, c10, y0, y1, yv),
        weighted_ends(c01, c11, y0, y1, yv),
        z0,
        z1,
        z.value(),
    )
}

/// Two ends that lie on a function that is affine in the coordinate, weighted.
proof fn lemma_weighted_affine(
    l: int,
    r: int,
    q: int,
    a: int,
    rest: int,
    x0: int,
    x1: int,
    x: int,
    d: int,
)
    requires
        q * l == (a * x0 + rest) * d,
        q * r == (a * x1 + rest) * d,
    ensures
        q * weighted_ends(l, r, x0, x1, x) == (a * x + rest) * (d * (x1 - x0)),
{
    let f0 = a * x0 + rest;
    let f1 = a * x1 + rest;
    let (u, v) = (x1 - x, x - x0);
    let (lu, rv) = (l * u, r * v);
    assert(q * (lu + rv) == q * lu + q * rv) by (nonlinear_arith);
    lemma_mul_is_associative(q, l, u);
    lemma_mul_is_associative(q, r, v);
    assert((f0 * d) * u == (f0 * u) * d && (f1 * d) * v == (f1 * v) * d) by (nonlinear_arith);
    let (s0, s1) = (f0 * u, f1 * v);
    assert((s0 + s1) * d == s0 * d + s1 * d) by (nonlinear_arith);
    // Both weights together are the width, and the weighted points the coordinate
    // times the width.
    let (p0, p1) = (a * x0, a * x1);
    assert((p0 + rest) * u == p0 * u + rest * u) by (nonlinear_arith);
    assert((p1 + rest) * v == p1 * v + rest * v) by (nonlinear_arith);
    assert(rest * u + rest * v == rest * (u + v)) by (nonlinear_arith);
    assert(x0 * (x1 - x) + x1 * (x - x0) == x * (x1 - x0)) by (nonlinear_arith);
    lemma_mul_is_associative(a, x0, u);
    lemma_mul_is_associative(a, x1, v);
    let (q0, q1) = (x0 * u, x1 * v);
    assert(a * q0 + a * q1 == a * (q0 + q1)) by (nonlinear_arith);
    let w = x1 - x0;
    lemma_mul_is_associative(a, x, w);
    assert((a * x + rest) * w == (a * x) * w + rest * w) by (nonlinear_arith);
    assert(((a * x + rest) * w) * d == (a * x + rest) * (d * w)) by (nonlinear_arith);
}

/// An interpolation between eight corners.
proof fn lemma_cube_error(
    e000: Double,
    e001: Double,
    e010: Double,
    e011: Double,
    e100: Double,
    e101: Double,
    e110: Double,
    e111: Double,
    x: Double,
    x0: Double,
    x1: Double,
    y: Double,
    y0: Double,
    y1: Double,
    z: Double,
    z0: Double,
    z1: Double,
    g: nat,
    a: nat,
    b: nat,
    c: nat,
)
    requires
        e000.finite() && abs(e000.value()) <= pow2(g + 53),
        e001.finite() && abs(e001.value()) <= pow2(g + 53),
        e010.finite() && abs(e010.value()) <= pow2(g + 53),
        e011.finite() && abs(e011.value()) <= pow2(g + 53),
        e100.finite() && abs(e100.value()) <= pow2(g + 53),
        e101.finite() && abs(e101.value()) <= pow2(g + 53),
        e110.finite() && abs(e110.value()) <= pow2(g + 53),
        e111.finite() && abs(e111.value()) <= pow2(g + 53),
        within_widths(x, x0, x1, a),
        within_widths(y, y0, y1, b),
        within_widths(z, z0, z1, c),
        a <= 1023 && b <= 1023 && c <= 1023,
        g + a + b + c <= 2038,
    ensures
        ({
            let bt = located_at(x, x0, x1);
            let nt = located_at(y, y0, y1);
            let d0 = on_line(on_line(e000, e100, bt), on_line(e010, e110, bt), nt);
            let d1 = on_line(on_line(e001, e101, bt), on_line(e011, e111, bt), nt);
            let r = on_line(d0, d1, located_at(z, z0, z1));
            let volume = (x1.value() - x0.value()) * (y1.value() - y0.value()) * (z1.value()
                - z0.value());
            let exact = weighted_ends(
                weighted_face(e000, e100, e010, e110, x, x0, x1, y, y0, y1),
                weighted_face(e001, e101, e011, e111, x, x0, x1, y, y0, y1),
                z0.value(),
                z1.value(),
                z.value(),
            );
            &&& volume > 0
            &&& r.finite()
            &&& abs(r.value() * volume - exact) <= pow2(g + a + b + c + 9) * volume
        }),
{
    let bt = located_at(x, x0, x1);
    let nt = located_at(y, y0, y1);
    let w1 = x1.value() - x0.value();
    let w2 = y1.value() - y0.value();
    let w3 = z1.value() - z0.value();
    lemma_face_error(e000, e100, e010, e110, x, x0, x1, y, y0, y1, g, a, b);
    lemma_face_error(e001, e101, e011, e111, x, x0, x1, y, y0, y1, g, a, b);
    let d0 = on_line(on_line(e000, e100, bt), on_line(e010, e110, bt), nt);
    let d1 = on_line(on_line(e001, e101, bt), on_line(e011, e111, bt), nt);
    let n0 = weighted_face(e000, e100, e010, e110, x, x0, x1, y, y0, y1);
    let n1 = weighted_face(e001, e101, e011, e111, x, x0, x1, y, y0, y1);
    lemma_mul_strictly_positive(w1, w2);
    lemma_third_error(d0, d1, z, z0, z1, g, a, b, c, w1 * w2, n0, n1);
    lemma_mul_strictly_positive(w1 * w2, w3);
}

/// How far an interpolated time is from the exact trilinear interpolation of the
/// measured ones, between the measured points and outside them. With corners of
/// at most two to the power of `m` and coordinates at most two to the powers of
/// `a`, `b` and `c` cells away from the point's cell, it is off by at most two to
/// the power of `m + a + b + c - 44`.
pub proof fn law_surface_error(
    surface: PrefillInterp3D,
    x: Double,
    y: Double,
    z: Double,
    m: nat,
    a: nat,
    b: nat,
    c: nat,
)
    requires
        valid_axis(surface.batch_axis()),
        valid_axis(surface.fresh_axis()),
        valid_axis(surface.kv_axis()),
        near_cell(surface.batch_axis(), x, a),
        near_cell(surface.fresh_axis(), y, b),
        near_cell(surface.kv_axis(), z, c),
        a <= 1023 && b <= 1023 && c <= 1023,
        53 <= m,
        m + a + b + c <= 2091,
        corners_between(
            surface.times(),
            cell(surface.batch_axis(), x),
            cell(surface.fresh_axis(), y),
            cell(surface.kv_axis(), z),
            -pow2(m),
            pow2(m) as int,
        ),
    ensures
        cell_volume(surface, x, y, z) > 0,
        surface.time_at(x, y, z) matches Ok(time) && time.finite() && abs(
            time.value() * cell_volume(surface, x, y, z) - weighted_corners(surface, x, y, z),
        ) <= pow2((m + a + b + c - 44) as nat) * cell_volume(surface, x, y, z),
{
    let xs = surface.batch_axis();
    let ys = surface.fresh_axis();
    let zs = surface.kv_axis();
    let i = cell(xs, x);
    let j = cell(ys, y);
    let l = cell(zs, z);
    let grid = surface.times();
    let g = (m - 53) as nat;
    assert(g + a + b + c + 9 == (m + a + b + c - 44) as nat);
    let (x0, x1) = (xs[i], xs[i + 1]);
    let (y0, y1) = (ys[j], ys[j + 1]);
    let (z0, z1) = (zs[l], zs[l + 1]);
    lemma_cube_error(
        grid.element(i, j, l),
        grid.element(i, j, l + 1),
        grid.element(i, j + 1, l),
        grid.element(i, j + 1, l + 1),
        grid.element(i + 1, j, l),
        grid.element(i + 1, j, l + 1),
        grid.element(i + 1, j + 1, l),
        grid.element(i + 1, j + 1, l + 1),
        x,
        x0,
        x1,
        y,
        y0,
        y1,
        z,
        z0,
        z1,
        g,
        a,
        b,
        c,
    );
    lemma_time_is_blend(surface, x, y, z);
}

/// The third axis of an interpolation.
proof fn lemma_third_error(
    d0: Double,
    d1: Double,
    z: Double,
    z0: Double,
    z1: Double,
    g: nat,
    a: nat,
    b: nat,
    c: nat,
    d: int,
    n0: int,
    n1: int,
)
    requires
        d0.finite() && abs(d0.value()) <= pow2(g + a + b + 4 + 53),
        d1.finite() && abs(d1.value()) <= pow2(g + a + b + 4 + 53),
        within_widths(z, z0, z1, c),
        c <= 1023,
        g + a + b + c <= 2038,
        d > 0,
        abs(d0.value() * d - n0) <= (70 * pow2(g + a + b)) * d,
        abs(d1.value() * d - n1) <= (70 * pow2(g + a + b)) * d,
    ensures
        ({
            let r = on_line(d0, d1, located_at(z, z0, z1));
            let volume = d * (z1.value() - z0.value());
            &&& r.finite()
            &&& abs(
                r.value() * volume - weighted_ends(n0, n1, z0.value(), z1.value(), z.value()),
            ) <= pow2(g + a + b + c + 9) * volume
        }),
{
    lemma_slack(g, a, b, c);
    let slack2 = 70 * pow2(g + a + b) as int;
    lemma_step_error(d0, d1, z, z0, z1, g + a + b + 4, c, d, n0, n1, slack2);
    let w3 = z1.value() - z0.value();
    lemma_mul_strictly_positive(d, w3);
    lemma_mul_inequality(
        370 * pow2(g + a + b + c) as int,
        pow2(g + a + b + c + 9) as int,
        d * w3,
    );
}

/// Four corners, each weighted with the distances of a point from the opposite
/// edges.
spec fn weighted_face(
    e00: Double,
    e10: Double,
    e01: Double,
    e11: Double,
    x: Double,
    x0: Double,
    x1: Double,
    y: Double,
    y0: Double,
    y1: Double,
) -> int {
    weighted_ends(
        weighted_ends(e00.value(), e10.value(), x0.value(), x1.value(), x.value()),
        weighted_ends(e01.value(), e11.value(), x0.value(), x1.value(), x.value()),
        y0.value(),
        y1.value(),
        y.value(),
    )
}

/// The first two axes of an interpolation between four corners.
proof fn lemma_face_error(
    e00: Double,
    e10: Double,
    e01: Double,
    e11: Double,
    x: Double,
    x0: Double,
    x1: Double,
    y: Double,
    y0: Double,
    y1: Double,
    g: nat,
    a: nat,
    b: nat,
)
    requires
        e00.finite() && abs(e00.value()) <= pow2(g + 53),
        e10.finite() && abs(e10.value()) <= pow2(g + 53),
        e01.finite() && abs(e01.value()) <= pow2(g + 53),
        e11.finite() && abs(e11.value()) <= pow2(g + 53),
        within_widths(x, x0, x1, a),
        within_widths(y, y0, y1, b),
        a <= 1023 && b <= 1023,
        g + a + b <= 2040,
    ensures
        ({
            let bt = located_at(x, x0, x1);
            let nt = located_at(y, y0, y1);
            let r = on_line(on_line(e00, e10, bt), on_line(e01, e11, bt), nt);
            let area = (x1.value() - x0.value()) * (y1.value() - y0.value());
            &&& r.finite()
            &&& abs(r.value()) <= pow2(g + a + b + 4 + 53)
            &&& abs(r.value() * area - weighted_face(e00, e10, e01, e11, x, x0, x1, y, y0, y1))
                <= (70 * pow2(g + a + b)) * area
        }),
{
    let bt = located_at(x, x0, x1);
    lemma_first_error(e00, e10, x, x0, x1, g, a);
    lemma_first_error(e01, e11, x, x0, x1, g, a);
    let (x0v, x1v) = (x0.value(), x1.value());
    let n0 = weighted_ends(e00.value(), e10.value(), x0v, x1v, x.value());
    let n1 = weighted_ends(e01.value(), e11.value(), x0v, x1v, x.value());
    let slack1 = 10 * pow2(g + a) as int;
    assert(g + a + 55 == g + a + 2 + 53);
    lemma_slack(g, a, b, 0);
    lemma_step_error(
        on_line(e00, e10, bt),
        on_line(e01, e11, bt),
        y,
        y0,
        y1,
        g + a + 2,
        b,
        x1v - x0v,
        n0,
        n1,
        slack1,
    );
}

/// What the second and the third axis of an interpolation make of the errors of
/// those before.
proof fn lemma_slack(g: nat, a: nat, b: nat, c: nat)
    ensures
        10 * pow2(g + a + 2 + b) + 3 * ((10 * pow2(g + a)) * pow2(b)) == 70 * pow2(g + a + b),
        pow2(g + a + 2 + b + 55) == pow2(g + a + b + 4 + 53),
        10 * pow2(g + a + b + 4 + c) + 3 * ((70 * pow2(g + a + b)) * pow2(c)) == 370 * pow2(
            g + a + b + c,
        ),
        370 * pow2(g + a + b + c) <= pow2(g + a + b + c + 9),
{
    let v2 = pow2(g + a + b) as int;
    let v3 = pow2(g + a + b + c) as int;
    lemma2_to64();
    lemma_pow2_adds(g + a, b);
    lemma_pow2_adds(g + a + b, 2);
    assert(g + a + 2 + b == g + a + b + 2);
    assert((10 * pow2(g + a)) * pow2(b) == 10 * v2) by (nonlinear_arith)
        requires
            v2 == pow2(g + a) * pow2(b),
    ;
    assert(g + a + 2 + b + 55 == g + a + b + 4 + 53);
    lemma_pow2_adds(g + a + b, c);
    lemma_pow2_adds(g + a + b + c, 4);
    lemma_pow2_adds(g + a + b + c, 9);
    assert(g + a + b + 4 + c == g + a + b + c + 4);
    assert((70 * pow2(g + a + b)) * pow2(c) == 70 * v3) by (nonlinear_arith)
        requires
            v3 == pow2(g + a + b) * pow2(c),
    ;
}

/// The first axis of an interpolation, whose ends are exact.
proof fn lemma_first_error(
    left: Double,
    right: Double,
    value: Double,
    lower: Double,
    upper: Double,
    g: nat,
    a: nat,
)
    requires
        left.finite(),
        right.finite(),
        abs(left.value()) <= pow2(g + 53),
        abs(right.value()) <= pow2(g + 53),
        within_widths(value, lower, upper, a),
        a <= 1023,
        g + a <= 2042,
    ensures
        ({
            let point = on_line(left, right, located_at(value, lower, upper));
            let width = upper.value() - lower.value();
            let exact = weighted_ends(
                left.value(),
                right.value(),
                lower.value(),
                upper.value(),
                value.value(),
            );
            &&& point.finite()
            &&& abs(point.value()) <= pow2(g + a + 55)
            &&& abs(point.value() * width - exact) <= (10 * pow2(g + a)) * width
        }),
{
    let l = left.value();
    let r = right.value();
    assert(l * 1 == l && r * 1 == r);
    lemma_step_error(left, right, value, lower, upper, g, a, 1, l, r, 0);
    assert(1 * (upper.value() - lower.value()) == upper.value() - lower.value());
    assert(0 * pow2(a) == 0);
}

/// A surface whose times are a multilinear function of its axes, divided by `q`,
/// continues that function along all axes, between the measured points and
/// outside them, up to rounding: it is off by no more than an interpolated time is
/// from the exact one.
pub proof fn law_surface_multilinear_error(
    surface: PrefillInterp3D,
    x: Double,
    y: Double,
    z: Double,
    q: int,
    f: Seq<int>,
    m: nat,
    a: nat,
    b: nat,
    c: nat,
)
    requires
        valid_axis(surface.batch_axis()),
        valid_axis(surface.fresh_axis()),
        valid_axis(surface.kv_axis()),
        near_cell(surface.batch_axis(), x, a),
        near_cell(surface.fresh_axis(), y, b),
        near_cell(surface.kv_axis(), z, c),
        a <= 1023 && b <= 1023 && c <= 1023,
        53 <= m,
        m + a + b + c <= 2091,
        corners_between(
            surface.times(),
            cell(surface.batch_axis(), x),
            cell(surface.fresh_axis(), y),
            cell(surface.kv_axis(), z),
            -pow2(m),
            pow2(m) as int,
        ),
        is_multilinear(surface, q, f),
    ensures
        surface.time_at(x, y, z) matches Ok(time) && time.finite() && abs(
            q * time.value() - multilinear(f, x.value(), y.value(), z.value()),
        ) <= abs(q) * pow2((m + a + b + c - 44) as nat),
{
    let xs = surface.batch_axis();
    let ys = surface.fresh_axis();
    let zs = surface.kv_axis();
    lemma_cell_exists(xs, x);
    lemma_cell_exists(ys, y);
    lemma_cell_exists(zs, z);
    law_surface_error(surface, x, y, z, m, a, b, c);
    lemma_weighted_multilinear(surface, x, y, z, q, f);
    let time = surface.time_at(x, y, z)->Ok_0.value();
    let volume = cell_volume(surface, x, y, z);
    let exact = weighted_corners(surface, x, y, z);
    let target = multilinear(f, x.value(), y.value(), z.value());
    let bound = pow2((m + a + b + c - 44) as nat) as int;
    lemma_abs_product(q, time * volume - exact);
    lemma_abs_product(q * time - target, volume);
    assert((q * time - target) * volume == q * (time * volume - exact)) by (nonlinear_arith)
        requires
            q * exact == target * volume,
    ;
    let size = abs(q) as int;
    let off = abs(time * volume - exact) as int;
    assert(abs(q * time - target) <= size * bound) by (nonlinear_arith)
        requires
            abs(q * time - target) * volume == size * off,
            off <= bound * volume,
            size >= 0,
            volume > 0,
    {
        assert(size * off <= size * (bound * volume));
        assert(size * (bound * volume) == (size * bound) * volume);
    }
}

/// The exact interpolation of a multilinear function is that function.
proof fn lemma_weighted_multilinear(
    surface: PrefillInterp3D,
    x: Double,
    y: Double,
    z: Double,
    q: int,
    f: Seq<int>,
)
    requires
        serves(surface.batch_axis(), x, cell(surface.batch_axis(), x)),
        serves(surface.fresh_axis(), y, cell(surface.fresh_axis(), y)),
        serves(surface.kv_axis(), z, cell(surface.kv_axis(), z)),
        is_multilinear(surface, q, f),
    ensures
        q * weighted_corners(surface, x, y, z) == multilinear(f, x.value(), y.value(), z.value())
            * cell_volume(surface, x, y, z),
{
    let xs = surface.batch_axis();
    let ys = surface.fresh_axis();
    let zs = surface.kv_axis();
    let i = cell(xs, x);
    let j = cell(ys, y);
    let l = cell(zs, z);
    let g = surface.times();
    let x0 = xs[i].value();
    let x1 = xs[i + 1].value();
    let y0 = ys[j].value();
    let y1 = ys[j + 1].value();
    let z0 = zs[l].value();
    let z1 = zs[l + 1].value();
    let xv = x.value();
    let yv = y.value();
    let zv = z.value();
    let e000 = g.element(i, j, l).value();
    let e001 = g.element(i, j, l + 1).value();
    let e010 = g.element(i, j + 1, l).value();
    let e011 = g.element(i, j + 1, l + 1).value();
    let e100 = g.element(i + 1, j, l).value();
    let e101 = g.element(i + 1, j, l + 1).value();
    let e110 = g.element(i + 1, j + 1, l).value();
    let e111 = g.element(i + 1, j + 1, l + 1).value();
    let w1 = x1 - x0;
    let w2 = y1 - y0;
    lemma_weighted_first(e000, e100, q, f, x0, x1, xv, y0, z0);
    lemma_weighted_first(e001, e101, q, f, x0, x1, xv, y0, z1);
    lemma_weighted_first(e010, e110, q, f, x0, x1, xv, y1, z0);
    lemma_weighted_first(e011, e111, q, f, x0, x1, xv, y1, z1);
    let n00 = weighted_ends(e000, e100, x0, x1, xv);
    let n01 = weighted_ends(e001, e101, x0, x1, xv);
    let n10 = weighted_ends(e010, e110, x0, x1, xv);
    let n11 = weighted_ends(e011, e111, x0, x1, xv);
    lemma_multilinear_slopes(f, xv, y0, z0);
    lemma_multilinear_slopes(f, xv, y0, z1);
    lemma_multilinear_slopes(f, xv, y1, z0);
    lemma_multilinear_slopes(f, xv, y1, z1);
    lemma_multilinear_slopes(f, xv, yv, z0);
    lemma_multilinear_slopes(f, xv, yv, z1);
    lemma_multilinear_slopes(f, xv, yv, zv);
    lemma_weighted_affine(
        n00,
        n10,
        q,
        slope_along(f[2], f[4], f[6], f[7], xv, z0),
        slope_along(f[0], f[1], f[3], f[5], xv, z0),
        y0,
        y1,
        yv,
        w1,
    );
    lemma_weighted_affine(
        n01,
        n11,
        q,
        slope_along(f[2], f[4], f[6], f[7], xv, z1),
        slope_along(f[0], f[1], f[3], f[5], xv, z1),
        y0,
        y1,
        yv,
        w1,
    );
    lemma_weighted_affine(
        weighted_ends(n00, n10, y0, y1, yv),
        weighted_ends(n01, n11, y0, y1, yv),
        q,
        slope_along(f[3], f[5], f[6], f[7], xv, yv),
        slope_along(f[0], f[1], f[2], f[4], xv, yv),
        z0,
        z1,
        zv,
        w1 * w2,
    );
}

/// The first axis of the exact interpolation of a multilinear function.
proof fn lemma_weighted_first(
    l: int,
    r: int,
    q: int,
    f: Seq<int>,
    x0: int,
    x1: int,
    x: int,
    y: int,
    z: int,
)
    requires
        q * l == multilinear(f, x0, y, z),
        q * r == multilinear(f, x1, y, z),
    ensures
        q * weighted_ends(l, r, x0, x1, x) == multilinear(f, x, y, z) * (x1 - x0),
{
    lemma_multilinear_slopes(f, x0, y, z);
    lemma_multilinear_slopes(f, x1, y, z);
    lemma_multilinear_slopes(f, x, y, z);
    let a = slope_along(f[1], f[4], f[5], f[7], y, z);
    let rest = slope_along(f[0], f[2], f[3], f[6], y, z);
    assert((a * x0 + rest) * 1 == a * x0 + rest);
    assert((a * x1 + rest) * 1 == a * x1 + rest);
    lemma_weighted_affine(l, r, q, a, rest, x0, x1, x, 1);
    assert(1 * (x1 - x0) == x1 - x0);
}

/// Whether a coordinate lies within an axis, in a cell of finite width.
pub open spec fn inside(axis: Seq<Double>, value: Double) -> bool {
    let i = cell(axis, value);
    &&& value.finite()
    &&& axis[0].value() <= value.value() <= axis.last().value()
    &&& difference(axis[i + 1], axis[i]).finite()
}

/// Within an axis, a position lies between zero and one, and a coordinate is at most
/// a cell away from its cell's lower point.
pub proof fn law_inside(axis: Seq<Double>, value: Double)
    requires
        valid_axis(axis),
        inside(axis, value),
    ensures
        position(axis, value, cell(axis, value)).finite(),
        0 <= position(axis, value, cell(axis, value)).value() <= pow2(1074),
        near_cell(axis, value, 0),
{
    lemma_cell_exists(axis, value);
    let i = cell(axis, value);
    let lower = axis[i];
    let upper = axis[i + 1];
    assert(lower.value() < upper.value());
    lemma_difference(value, lower);
    lemma_difference(upper, lower);
    if value.value() > lower.value() {
        law_round_monotone(
            (value.value() - lower.value()) as nat,
            1,
            (upper.value() - lower.value()) as nat,
            1,
        );
    }
    lemma2_to64();
    assert(within_widths(value, lower, upper, 0));
    law_position_error(value, lower, upper, 0);
    law_position(axis, value, i);
}

/// A point of a line lies between its ends, up to rounding.
proof fn lemma_line_within(left: Double, right: Double, t: Double, g: nat, lo: int, hi: int)
    requires
        left.finite(),
        right.finite(),
        t.finite(),
        lo <= left.value() <= hi,
        lo <= right.value() <= hi,
        -pow2(g + 53) <= lo,
        hi <= pow2(g + 53),
        0 <= t.value() <= pow2(1074),
        g <= 2042,
    ensures
        on_line(left, right, t).finite(),
        lo - 4 * pow2(g) <= on_line(left, right, t).value() <= hi + 4 * pow2(g),
        -pow2(g + 54) <= lo - 4 * pow2(g),
        hi + 4 * pow2(g) <= pow2(g + 54),
{
    lemma2_to64();
    lemma2_to64_rest();
    lemma_pow2_pos(1074);
    assert(pow2(1074) * pow2(0) == pow2(1074));
    lemma_line_error(left, right, t, g, 0);
    let p = pow2(1074) as int;
    let v = pow2(g) as int;
    let l = left.value();
    let r = right.value();
    let w = t.value();
    let y = on_line(left, right, t).value();
    assert(g + 0 == g);
    assert(l * p + (r - l) * w == l * (p - w) + r * w) by (nonlinear_arith);
    assert(lo * p <= l * (p - w) + r * w <= hi * p) by (nonlinear_arith)
        requires
            lo <= l <= hi,
            lo <= r <= hi,
            0 <= w <= p,
    {
        assert(lo * (p - w) <= l * (p - w) <= hi * (p - w));
        assert(lo * w <= r * w <= hi * w);
        assert(lo * (p - w) + lo * w == lo * p);
        assert(hi * (p - w) + hi * w == hi * p);
    }
    assert((y - l) * p == y * p - l * p) by (nonlinear_arith);
    assert(lo * p - 4 * (v * p) <= y * p <= hi * p + 4 * (v * p));
    assert(lo - 4 * v <= y <= hi + 4 * v) by (nonlinear_arith)
        requires
            lo * p - 4 * (v * p) <= y * p <= hi * p + 4 * (v * p),
            p > 0,
    {
        assert(lo * p - 4 * (v * p) == (lo - 4 * v) * p);
        assert(hi * p + 4 * (v * p) == (hi + 4 * v) * p);
    }
    lemma_pow2_unfold(g + 54);
    lemma_pow2_adds(g, 53);
    assert(4 * v <= v * pow2(53)) by (nonlinear_arith)
        requires
            v >= 0,
            pow2(53) >= 4,
    ;
}

/// The first two axes of an interpolation between four corners.
proof fn lemma_face_within(
    e00: Double,
    e10: Double,
    e01: Double,
    e11: Double,
    bt: Double,
    nt: Double,
    g: nat,
    lo: int,
    hi: int,
)
    requires
        e00.finite() && lo <= e00.value() <= hi,
        e10.finite() && lo <= e10.value() <= hi,
        e01.finite() && lo <= e01.value() <= hi,
        e11.finite() && lo <= e11.value() <= hi,
        bt.finite() && 0 <= bt.value() <= pow2(1074),
        nt.finite() && 0 <= nt.value() <= pow2(1074),
        -pow2(g + 53) <= lo,
        hi <= pow2(g + 53),
        g <= 2041,
    ensures
        ({
            let r = on_line(on_line(e00, e10, bt), on_line(e01, e11, bt), nt);
            &&& r.finite()
            &&& lo - 12 * pow2(g) <= r.value() <= hi + 12 * pow2(g)
        }),
        -pow2(g + 2 + 53) <= lo - 12 * pow2(g),
        hi + 12 * pow2(g) <= pow2(g + 2 + 53),
{
    lemma_line_within(e00, e10, bt, g, lo, hi);
    lemma_line_within(e01, e11, bt, g, lo, hi);
    let v = pow2(g) as int;
    assert(g + 54 == g + 1 + 53);
    lemma_line_within(
        on_line(e00, e10, bt),
        on_line(e01, e11, bt),
        nt,
        g + 1,
        lo - 4 * v,
        hi + 4 * v,
    );
    lemma_pow2_unfold(g + 1);
    assert(g + 1 + 54 == g + 2 + 53);
}

/// An interpolation between eight corners.
proof fn lemma_cube_within(
    e000: Double,
    e001: Double,
    e010: Double,
    e011: Double,
    e100: Double,
    e101: Double,
    e110: Double,
    e111: Double,
    bt: Double,
    nt: Double,
    kt: Double,
    g: nat,
    lo: int,
    hi: int,
)
    requires
        e000.finite() && lo <= e000.value() <= hi,
        e001.finite() && lo <= e001.value() <= hi,
        e010.finite() && lo <= e010.value() <= hi,
        e011.finite() && lo <= e011.value() <= hi,
        e100.finite() && lo <= e100.value() <= hi,
        e101.finite() && lo <= e101.value() <= hi,
        e110.finite() && lo <= e110.value() <= hi,
        e111.finite() && lo <= e111.value() <= hi,
        bt.finite() && 0 <= bt.value() <= pow2(1074),
        nt.finite() && 0 <= nt.value() <= pow2(1074),
        kt.finite() && 0 <= kt.value() <= pow2(1074),
        g <= 2040,
        -pow2(g + 53) <= lo,
        hi <= pow2(g + 53),
    ensures
        ({
            let d0 = on_line(on_line(e000, e100, bt), on_line(e010, e110, bt), nt);
            let d1 = on_line(on_line(e001, e101, bt), on_line(e011, e111, bt), nt);
            let r = on_line(d0, d1, kt);
            r.finite() && lo - pow2(g + 5) < r.value() < hi + pow2(g + 5)
        }),
{
    lemma_face_within(e000, e100, e010, e110, bt, nt, g, lo, hi);
    lemma_face_within(e001, e101, e011, e111, bt, nt, g, lo, hi);
    let d0 = on_line(on_line(e000, e100, bt), on_line(e010, e110, bt), nt);
    let d1 = on_line(on_line(e001, e101, bt), on_line(e011, e111, bt), nt);
    lemma_third_within(d0, d1, kt, g, lo, hi);
}

/// The third axis of an interpolation.
proof fn lemma_third_within(d0: Double, d1: Double, kt: Double, g: nat, lo: int, hi: int)
    requires
        d0.finite() && lo - 12 * pow2(g) <= d0.value() <= hi + 12 * pow2(g),
        d1.finite() && lo - 12 * pow2(g) <= d1.value() <= hi + 12 * pow2(g),
        kt.finite() && 0 <= kt.value() <= pow2(1074),
        g <= 2040,
        -pow2(g + 2 + 53) <= lo - 12 * pow2(g),
        hi + 12 * pow2(g) <= pow2(g + 2 + 53),
    ensures
        on_line(d0, d1, kt).finite(),
        lo - pow2(g + 5) < on_line(d0, d1, kt).value() < hi + pow2(g + 5),
{
    let v = pow2(g) as int;
    lemma_line_within(d0, d1, kt, g + 2, lo - 12 * v, hi + 12 * v);
    lemma_pow2_pos(g);
    lemma2_to64();
    lemma_pow2_adds(g, 2);
    lemma_pow2_adds(g, 5);
}

/// Within the measured domain, an interpolated time lies between the least and
/// the greatest corner of its cell, up to rounding: with corners of at most two to
/// the power of `m`, it is off by less than two to the power of `m - 48`.
pub proof fn law_surface_range(
    surface: PrefillInterp3D,
    x: Double,
    y: Double,
    z: Double,
    lo: int,
    hi: int,
    m: nat,
)
    requires
        valid_axis(surface.batch_axis()),
        valid_axis(surface.fresh_axis()),
        valid_axis(surface.kv_axis()),
        inside(surface.batch_axis(), x),
        inside(surface.fresh_axis(), y),
        inside(surface.kv_axis(), z),
        corners_between(
            surface.times(),
            cell(surface.batch_axis(), x),
            cell(surface.fresh_axis(), y),
            cell(surface.kv_axis(), z),
            lo,
            hi,
        ),
        53 <= m <= 2093,
        -pow2(m) <= lo,
        hi <= pow2(m),
    ensures
        surface.time_at(x, y, z) matches Ok(time) && time.finite() && lo - pow2((m - 48) as nat)
            < time.value() < hi + pow2((m - 48) as nat),
{
    let xs = surface.batch_axis();
    let ys = surface.fresh_axis();
    let zs = surface.kv_axis();
    let i = cell(xs, x);
    let j = cell(ys, y);
    let l = cell(zs, z);
    let grid = surface.times();
    let g = (m - 53) as nat;
    assert(g + 5 == (m - 48) as nat);
    law_inside(xs, x);
    law_inside(ys, y);
    law_inside(zs, z);
    lemma_cube_within(
        grid.element(i, j, l),
        grid.element(i, j, l + 1),
        grid.element(i, j + 1, l),
        grid.element(i, j + 1, l + 1),
        grid.element(i + 1, j, l),
        grid.element(i + 1, j, l + 1),
        grid.element(i + 1, j + 1, l),
        grid.element(i + 1, j + 1, l + 1),
        position(xs, x, i),
        position(ys, y, j),
        position(zs, z, l),
        g,
        lo,
        hi,
    );
    lemma_time_is_blend(surface, x, y, z);
}

/// The time of a batch-aware surface is the trilinear interpolation of the eight
/// times around the point, each weighted with the distances of the point from the
/// faces opposite to it, and divided by the volume of the cell. The cell is the one
/// that the point lies in. Below the first point of an axis it is the first cell that
/// is continued, and from the last point on the last one. With times of at most two
/// to the power of `m` and coordinates at most two to the powers of `a`, `b` and `c`
/// cells away from the cell's lower points, rounding adds at most two to the power of
/// `m + a + b + c - 44`.
pub proof fn law_surface_trilinear(
    surface: PrefillInterp3D,
    x: Double,
    y: Double,
    z: Double,
    i: int,
    j: int,
    l: int,
    m: nat,
    a: nat,
    b: nat,
    c: nat,
)
    requires
        valid_axis(surface.batch_axis()),
        valid_axis(surface.fresh_axis()),
        valid_axis(surface.kv_axis()),
        x.finite() && y.finite() && z.finite(),
        // The cell on each axis.
        0 <= i < surface.batch_axis().len() - 1,
        0 < i ==> surface.batch_axis()[i].value() <= x.value(),
        i + 2 < surface.batch_axis().len() ==> x.value() < surface.batch_axis()[i + 1].value(),
        0 <= j < surface.fresh_axis().len() - 1,
        0 < j ==> surface.fresh_axis()[j].value() <= y.value(),
        j + 2 < surface.fresh_axis().len() ==> y.value() < surface.fresh_axis()[j + 1].value(),
        0 <= l < surface.kv_axis().len() - 1,
        0 < l ==> surface.kv_axis()[l].value() <= z.value(),
        l + 2 < surface.kv_axis().len() ==> z.value() < surface.kv_axis()[l + 1].value(),
        // How far from it the point is.
        difference(x, surface.batch_axis()[i]).finite(),
        difference(surface.batch_axis()[i + 1], surface.batch_axis()[i]).finite(),
        abs(x.value() - surface.batch_axis()[i].value()) <= (surface.batch_axis()[i + 1].value()
            - surface.batch_axis()[i].value()) * pow2(a),
        difference(y, surface.fresh_axis()[j]).finite(),
        difference(surface.fresh_axis()[j + 1], surface.fresh_axis()[j]).finite(),
        abs(y.value() - surface.fresh_axis()[j].value()) <= (surface.fresh_axis()[j + 1].value()
            - surface.fresh_axis()[j].value()) * pow2(b),
        difference(z, surface.kv_axis()[l]).finite(),
        difference(surface.kv_axis()[l + 1], surface.kv_axis()[l]).finite(),
        abs(z.value() - surface.kv_axis()[l].value()) <= (surface.kv_axis()[l + 1].value()
            - surface.kv_axis()[l].value()) * pow2(c),
        a <= 1023 && b <= 1023 && c <= 1023,
        53 <= m,
        m + a + b + c <= 2091,
        // The times around it.
        forall|u: int, v: int, w: int|
            i <= u <= i + 1 && j <= v <= j + 1 && l <= w <= l + 1 ==> (
            #[trigger] surface.times().element(u, v, w)).finite() && abs(
                surface.times().element(u, v, w).value(),
            ) <= pow2(m),
    ensures
        ({
            let g = surface.times();
            let (x0, x1) = (surface.batch_axis()[i].value(), surface.batch_axis()[i + 1].value());
            let (y0, y1) = (surface.fresh_axis()[j].value(), surface.fresh_axis()[j + 1].value());
            let (z0, z1) = (surface.kv_axis()[l].value(), surface.kv_axis()[l + 1].value());
            let (xv, yv, zv) = (x.value(), y.value(), z.value());
            let volume = (x1 - x0) * (y1 - y0) * (z1 - z0);
            let near = (g.element(i, j, l).value() * (x1 - xv) + g.element(i + 1, j, l).value() * (xv
                - x0)) * (y1 - yv) + (g.element(i, j + 1, l).value() * (x1 - xv) + g.element(
                i + 1,
                j + 1,
                l,
            ).value() * (xv - x0)) * (yv - y0);
            let far = (g.element(i, j, l + 1).value() * (x1 - xv) + g.element(
                i + 1,
                j,
                l + 1,
            ).value() * (xv - x0)) * (y1 - yv) + (g.element(i, j + 1, l + 1).value() * (x1 - xv)
                + g.element(i + 1, j + 1, l + 1).value() * (xv - x0)) * (yv - y0);
            &&& volume > 0
            &&& surface.time_at(x, y, z) matches Ok(time) && time.finite() && abs(
                time.value() * volume - (near * (z1 - zv) + far * (zv - z0)),
            ) <= pow2((m + a + b + c - 44) as nat) * volume
        }),
{
    lemma_cell_unique(surface.batch_axis(), x, i);
    lemma_cell_unique(surface.fresh_axis(), y, j);
    lemma_cell_unique(surface.kv_axis(), z, l);
    assert(surface.batch_axis()[i].value() < surface.batch_axis()[i + 1].value());
    assert(surface.fresh_axis()[j].value() < surface.fresh_axis()[j + 1].value());
    assert(surface.kv_axis()[l].value() < surface.kv_axis()[l + 1].value());
    law_surface_error(surface, x, y, z, m, a, b, c);
}

/// A surface has a time wherever the coordinates are finite and the axes valid. The
/// first coordinate that is not finite, or the first axis that is not valid, in the
/// order batch size, fresh tokens, prefix, is why there is none.
pub proof fn law_surface_refuses(surface: PrefillInterp3D, x: Double, y: Double, z: Double)
    ensures
        surface.time_at(x, y, z) is Ok <==> x.finite() && y.finite() && z.finite() && valid_axis(
            surface.batch_axis(),
        ) && valid_axis(surface.fresh_axis()) && valid_axis(surface.kv_axis()),
        !x.finite() ==> surface.time_at(x, y, z) == Err::<Double, InterpolationError>(
            InterpolationError::NonFiniteCoordinate(x),
        ),
        x.finite() && surface.batch_axis().len() < 2 ==> surface.time_at(x, y, z) == Err::<
            Double,
            InterpolationError,
        >(InterpolationError::AxisTooShort),
        x.finite() && surface.batch_axis().len() >= 2 && !valid_axis(surface.batch_axis())
            ==> surface.time_at(x, y, z) == Err::<Double, InterpolationError>(
            InterpolationError::AxisNotIncreasing,
        ),
        x.finite() && valid_axis(surface.batch_axis()) ==> {
            &&& !y.finite() ==> surface.time_at(x, y, z) == Err::<Double, InterpolationError>(
                InterpolationError::NonFiniteCoordinate(y),
            )
            &&& y.finite() && surface.fresh_axis().len() < 2 ==> surface.time_at(x, y, z) == Err::<
                Double,
                InterpolationError,
            >(InterpolationError::AxisTooShort)
            &&& y.finite() && surface.fresh_axis().len() >= 2 && !valid_axis(surface.fresh_axis())
                ==> surface.time_at(x, y, z) == Err::<Double, InterpolationError>(
                InterpolationError::AxisNotIncreasing,
            )
            &&& y.finite() && valid_axis(surface.fresh_axis()) ==> {
                &&& !z.finite() ==> surface.time_at(x, y, z) == Err::<Double, InterpolationError>(
                    InterpolationError::NonFiniteCoordinate(z),
                )
                &&& z.finite() && surface.kv_axis().len() < 2 ==> surface.time_at(x, y, z)
                    == Err::<Double, InterpolationError>(InterpolationError::AxisTooShort)
                &&& z.finite() && surface.kv_axis().len() >= 2 && !valid_axis(surface.kv_axis())
                    ==> surface.time_at(x, y, z) == Err::<Double, InterpolationError>(
                    InterpolationError::AxisNotIncreasing,
                )
            }
        },
{
}

/// A grid holds its elements in row-major order: the last index counts single
/// elements, the second one rows of the last extent, and the first one planes of the
/// last two.
pub proof fn law_grid_order(grid: Grid, i: int, j: int, k: int)
    ensures
        grid.element(i, j, k) == grid.elements()[i * grid.extents().1 * grid.extents().2 + j
            * grid.extents().2 + k],
{
    let (e1, e2) = (grid.extents().1 as int, grid.extents().2 as int);
    assert((i * e1 + j) * e2 == i * e1 * e2 + j * e2) by (nonlinear_arith);
}

} // verus!
