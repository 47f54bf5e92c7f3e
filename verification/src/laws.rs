//! What holds of the library as a whole.

use ndarray_interp::InterpolateError;
use vstd::arithmetic::mul::lemma_mul_is_associative;
use vstd::arithmetic::power2::{
    lemma2_to64, lemma2_to64_rest, lemma_pow2_adds, lemma_pow2_pos, lemma_pow2_unfold, pow2,
};
use vstd::math::abs;
use vstd::prelude::*;

use crate::axis::{
    cell, coordinate_error, lemma_cell_exists, lemma_cell_unique, position, serves, valid_axis,
    InterpolationError,
};
use crate::double::{
    difference, larger, law_difference_exact, law_integer_exact, law_product_exact,
    law_quotient_exact, law_sum_exact, lemma_integer_finite, lemma_one, lemma_signed, opposite,
    product, ratio, representable, sum, Double,
};
use crate::interpolator::{AicCallback, DecodeInterpolator, PrefillInterpolator, PrefillTable};
use crate::model::{fresh_tokens, no_time, prefill_formula, time_or_none, PerfModel};
use crate::profile::{
    advanced, all_durations, answers, measured, table_answer, ArrayName, LoadEvent, LoadProgress,
    LoadState, PrefillInterp1D, PrefillProfile,
};
use crate::rounding::{
    exponent, law_round_exact, law_round_monotone, lemma_round_bounded, lemma_round_ratio_cancel,
    lemma_round_zero, lemma_units_increase, lemma_units_zero, round_ratio, significand, units,
    BINADE, INFINITY,
};
use crate::surface::{lemma_offset, on_line, Grid, PrefillInterp3D};

verus! {

broadcast use lemma_round_bounded;

/// The sign of a difference, and what it is rounded from.
pub proof fn lemma_difference(a: Double, b: Double)
    requires
        a.finite(),
        b.finite(),
    ensures
        ({
            let exact = a.value() - b.value();
            let r = difference(a, b);
            &&& !r.nan()
            &&& exact == 0 ==> r.magnitude() == 0
            &&& exact > 0 ==> !r.negative() && r.magnitude() == round_ratio(exact as nat, 1)
                && r.magnitude() > 0
            &&& exact < 0 ==> r.negative() && r.magnitude() == round_ratio((-exact) as nat, 1)
                && r.magnitude() > 0
        }),
{
    let exact = a.value() - b.value();
    lemma_signed(!b.negative(), b.magnitude());
    lemma_units_zero();
    // One unit is the smallest positive magnitude.
    lemma2_to64();
    assert(exponent(1) == 0);
    assert(significand(1) == 1);
    assert(units(1) == 1);
    law_round_exact(1, 1);
    if exact > 0 {
        law_round_monotone(1, 1, exact as nat, 1);
        lemma_signed(false, round_ratio(exact as nat, 1));
    } else if exact < 0 {
        law_round_monotone(1, 1, (-exact) as nat, 1);
        lemma_signed(true, round_ratio((-exact) as nat, 1));
    } else {
        lemma_signed(a.negative() && opposite(b).negative(), 0);
    }
}

/// A coordinate that is interpolated lies between the points of its cell, one
/// that is extrapolated lies beyond them: the position is at most zero below the
/// cell, between zero and one within it, and at least one above it. A distance
/// and a width that are both beyond the largest double have no quotient.
pub proof fn law_position(axis: Seq<Double>, value: Double, i: int)
    requires
        valid_axis(axis),
        value.finite(),
        serves(axis, value, i),
        difference(value, axis[i]).finite() || difference(axis[i + 1], axis[i]).finite(),
    ensures
        !position(axis, value, i).nan(),
        value.value() <= axis[i].value() ==> position(axis, value, i).value() <= 0,
        axis[i].value() <= value.value() ==> position(axis, value, i).value() >= 0,
        value.value() <= axis[i + 1].value() ==> position(axis, value, i).value() <= pow2(1074),
        axis[i + 1].value() <= value.value() ==> position(axis, value, i).value() >= pow2(1074),
{
    let lower = axis[i];
    let upper = axis[i + 1];
    let num = difference(value, lower);
    let den = difference(upper, lower);
    let x = value.value() - lower.value();
    let w = upper.value() - lower.value();
    let t = position(axis, value, i);
    lemma_difference(value, lower);
    lemma_difference(upper, lower);
    lemma_units_zero();
    lemma_units_increase(0, den.magnitude());
    lemma_one();
    lemma_pow2_pos(1074);
    let u = units(num.magnitude());
    let v = units(den.magnitude());
    let p = pow2(1074);
    if den.infinite() {
        lemma_signed(num.negative(), 0);
        if x >= w {
            law_round_monotone(w as nat, 1, x as nat, 1);
        }
    } else if num.infinite() {
        lemma_signed(num.negative(), INFINITY as nat);
        let m: nat = 1023 * BINADE as nat;
        lemma_signed(false, m);
        lemma_units_increase(m, INFINITY as nat);
        if x > 0 && x <= w {
            law_round_monotone(x as nat, 1, w as nat, 1);
        }
    } else {
        let m = round_ratio(u * p, v);
        lemma_signed(num.negative(), m);
        assert(ratio(1, 1).magnitude() == round_ratio(1 * p, 1));
        let one = round_ratio(1 * p, 1);
        if m > 0 {
            lemma_units_increase(0, m);
        }
        if x == 0 {
            assert(u * p == 0) by (nonlinear_arith)
                requires
                    u == 0,
            ;
            lemma_round_zero(v);
        } else if x > 0 {
            if x <= w {
                law_round_monotone(x as nat, 1, w as nat, 1);
                if num.magnitude() < den.magnitude() {
                    lemma_units_increase(num.magnitude(), den.magnitude());
                }
                assert((u * p) * 1 <= (1 * p) * v) by (nonlinear_arith)
                    requires
                        u <= v,
                ;
                law_round_monotone(u * p, v, 1 * p, 1);
                if m < one {
                    lemma_units_increase(m, one);
                }
            }
            if x >= w {
                law_round_monotone(w as nat, 1, x as nat, 1);
                if den.magnitude() < num.magnitude() {
                    lemma_units_increase(den.magnitude(), num.magnitude());
                }
                assert((1 * p) * v <= (u * p) * 1) by (nonlinear_arith)
                    requires
                        v <= u,
                ;
                law_round_monotone(1 * p, 1, u * p, v);
                if one < m {
                    lemma_units_increase(one, m);
                }
            }
        }
    }
}

/// The difference of two finite non-negative numbers is finite.
proof fn lemma_difference_finite(a: Double, b: Double)
    requires
        a.finite(),
        b.finite(),
        a.value() >= 0,
        b.value() >= 0,
    ensures
        difference(a, b).finite(),
{
    lemma_difference(a, b);
    lemma_units_zero();
    let exact = a.value() - b.value();
    if exact > 0 {
        law_round_exact(a.magnitude(), 1);
        law_round_monotone(exact as nat, 1, units(a.magnitude()) * 1, 1);
    } else if exact < 0 {
        law_round_exact(b.magnitude(), 1);
        law_round_monotone((-exact) as nat, 1, units(b.magnitude()) * 1, 1);
    }
}

/// A finite double is representable.
proof fn lemma_representable(a: Double)
    requires
        a.finite(),
    ensures
        representable(a.value()),
{
    assert(units(a.magnitude()) == abs(a.value()));
}

/// Where the step along a line is zero, the line stays at its left end.
proof fn lemma_no_step(left: Double, right: Double, t: Double)
    requires
        left.finite(),
        t.finite(),
        difference(right, left).finite(),
        difference(right, left).value() * t.value() == 0,
    ensures
        on_line(left, right, t).finite(),
        on_line(left, right, t).value() == left.value(),
{
    let rise = difference(right, left);
    lemma_units_zero();
    assert(units(0) == abs(0));
    assert(0 * pow2(1074) == 0);
    law_product_exact(rise, t, 0);
    lemma_representable(left);
    law_sum_exact(left, product(rise, t));
}

/// At position zero, a line passes through its left end.
pub proof fn law_line_start(left: Double, right: Double, t: Double)
    requires
        left.finite(),
        right.finite(),
        difference(right, left).finite(),
        t.magnitude() == 0,
    ensures
        on_line(left, right, t).finite(),
        on_line(left, right, t).value() == left.value(),
{
    lemma_units_zero();
    let h = difference(right, left).value();
    assert(h * 0 == 0);
    lemma_no_step(left, right, t);
}

/// A line between equal ends stays at their height, at every position.
pub proof fn law_line_level(left: Double, right: Double, t: Double)
    requires
        left.finite(),
        right.finite(),
        left.value() == right.value(),
        t.finite(),
    ensures
        on_line(left, right, t).finite(),
        on_line(left, right, t).value() == left.value(),
{
    lemma_units_zero();
    assert(units(0) == abs(0));
    law_difference_exact(right, left);
    let w = t.value();
    assert(0 * w == 0);
    lemma_no_step(left, right, t);
}

/// At position one, a line whose rise is not rounded passes through its right end.
pub proof fn law_line_end(left: Double, right: Double, t: Double)
    requires
        left.finite(),
        right.finite(),
        representable(right.value() - left.value()),
        t.finite(),
        t.value() == pow2(1074),
    ensures
        on_line(left, right, t).finite(),
        on_line(left, right, t).value() == right.value(),
{
    let rise = right.value() - left.value();
    lemma_representable(right);
    assert(left.value() + rise == right.value());
    assert(unrounded_line(left, right, t));
    law_line_exact(left, right, t);
    lemma_pow2_pos(1074);
    let y = on_line(left, right, t).value();
    let p = pow2(1074) as int;
    assert(y - left.value() == rise) by (nonlinear_arith)
        requires
            (y - left.value()) * p == rise * p,
            p > 0,
    ;
}

/// Whether a point on a line is computed without rounding.
pub open spec fn unrounded_line(left: Double, right: Double, t: Double) -> bool {
    &&& left.finite() && right.finite() && t.finite()
    &&& representable(right.value() - left.value())
    &&& exists|step: int|
        {
            &&& (right.value() - left.value()) * t.value() == step * pow2(1074)
            &&& #[trigger] representable(step)
            &&& representable(left.value() + step)
        }
}

/// Whether the position of a coordinate in a cell is computed without rounding.
pub open spec fn unrounded_position(axis: Seq<Double>, value: Double, i: int) -> bool {
    &&& representable(value.value() - axis[i].value())
    &&& representable(axis[i + 1].value() - axis[i].value())
    &&& exists|v: int|
        {
            &&& #[trigger] representable(v)
            &&& (value.value() - axis[i].value()) * pow2(1074) == v * (axis[i + 1].value()
                - axis[i].value())
        }
}

/// Without rounding, a point on a line divides it in the ratio of its position,
/// for positions between the line's ends and beyond them alike.
pub proof fn law_line_exact(left: Double, right: Double, t: Double)
    requires
        unrounded_line(left, right, t),
    ensures
        on_line(left, right, t).finite(),
        (on_line(left, right, t).value() - left.value()) * pow2(1074) == (right.value()
            - left.value()) * t.value(),
{
    let step = choose|step: int|
        {
            &&& (right.value() - left.value()) * t.value() == step * pow2(1074)
            &&& #[trigger] representable(step)
            &&& representable(left.value() + step)
        };
    law_difference_exact(right, left);
    law_product_exact(difference(right, left), t, step);
    law_sum_exact(left, product(difference(right, left), t));
}

/// Without rounding, a position is the ratio of the coordinate's distance from
/// the lower point to the width of the cell.
pub proof fn law_position_exact(axis: Seq<Double>, value: Double, i: int)
    requires
        valid_axis(axis),
        0 <= i < axis.len() - 1,
        value.finite(),
        unrounded_position(axis, value, i),
    ensures
        position(axis, value, i).finite(),
        position(axis, value, i).value() * (axis[i + 1].value() - axis[i].value()) == (
        value.value() - axis[i].value()) * pow2(1074),
{
    let v = choose|v: int|
        {
            &&& #[trigger] representable(v)
            &&& (value.value() - axis[i].value()) * pow2(1074) == v * (axis[i + 1].value()
                - axis[i].value())
        };
    assert(axis[i].value() < axis[i + 1].value());
    law_difference_exact(value, axis[i]);
    law_difference_exact(axis[i + 1], axis[i]);
    law_quotient_exact(
        difference(value, axis[i]),
        difference(axis[i + 1], axis[i]),
        v,
    );
}

/// Interpolating between the points of a cell of an axis at the position of a
/// coordinate gives the coordinate back, wherever no step needs rounding.
pub proof fn law_lerp_exact(axis: Seq<Double>, value: Double, i: int)
    requires
        valid_axis(axis),
        0 <= i < axis.len() - 1,
        value.finite(),
        unrounded_position(axis, value, i),
        unrounded_line(axis[i], axis[i + 1], position(axis, value, i)),
    ensures
        on_line(axis[i], axis[i + 1], position(axis, value, i)).finite(),
        on_line(axis[i], axis[i + 1], position(axis, value, i)).value() == value.value(),
{
    let t = position(axis, value, i);
    let x0 = axis[i].value();
    let x1 = axis[i + 1].value();
    let x = value.value();
    let p = pow2(1074) as int;
    law_position_exact(axis, value, i);
    law_line_exact(axis[i], axis[i + 1], t);
    lemma_pow2_pos(1074);
    let y = on_line(axis[i], axis[i + 1], t).value();
    assert(y - x0 == x - x0) by (nonlinear_arith)
        requires
            (y - x0) * p == (x1 - x0) * t.value(),
            t.value() * (x1 - x0) == (x - x0) * p,
            p > 0,
    ;
}

/// One axis of a multilinear surface: if the ends of a line lie on a function that is
/// affine in a coordinate, with slope `a / q`, so does the point between them.
proof fn lemma_line_affine(
    left: Double,
    right: Double,
    t: Double,
    q: int,
    a: int,
    x0: int,
    x1: int,
    x: int,
    rest: int,
)
    requires
        unrounded_line(left, right, t),
        t.value() * (x1 - x0) == (x - x0) * pow2(1074),
        q * left.value() == a * x0 + rest,
        q * right.value() == a * x1 + rest,
    ensures
        on_line(left, right, t).finite(),
        q * on_line(left, right, t).value() == a * x + rest,
{
    law_line_exact(left, right, t);
    lemma_pow2_pos(1074);
    let p = pow2(1074) as int;
    let l = left.value();
    let r = right.value();
    let y = on_line(left, right, t).value();
    let w = t.value();
    assert(q * (r - l) == a * (x1 - x0)) by (nonlinear_arith)
        requires
            q * l == a * x0 + rest,
            q * r == a * x1 + rest,
    ;
    assert((q * (y - l)) * p == (q * (r - l)) * w) by (nonlinear_arith)
        requires
            (y - l) * p == (r - l) * w,
    ;
    assert((a * (x1 - x0)) * w == (a * (x - x0)) * p) by (nonlinear_arith)
        requires
            w * (x1 - x0) == (x - x0) * p,
    ;
    assert(q * (y - l) == a * (x - x0)) by (nonlinear_arith)
        requires
            (q * (y - l)) * p == (a * (x - x0)) * p,
            p > 0,
    ;
    assert(q * y == a * x + rest) by (nonlinear_arith)
        requires
            q * (y - l) == a * (x - x0),
            q * l == a * x0 + rest,
    ;
}

/// The function of two coordinates with the constant term `c` and the coefficients
/// `c_u` and `c_v` of the coordinates and `c_uv` of their product.
pub open spec fn slope_along(c: int, c_u: int, c_v: int, c_uv: int, u: int, v: int) -> int {
    c + c_u * u + c_v * v + c_uv * (u * v)
}

/// The function with the eight given coefficients that is affine in each of its
/// three coordinates.
pub open spec fn multilinear(f: Seq<int>, x: int, y: int, z: int) -> int {
    f[0] + f[1] * x + f[2] * y + f[3] * z + f[4] * (x * y) + f[5] * (x * z) + f[6] * (y * z) + f[7]
        * (x * y * z)
}

/// Whether the times of a surface, times `q`, are a multilinear function of its
/// axes.
pub open spec fn is_multilinear(surface: PrefillInterp3D, q: int, f: Seq<int>) -> bool {
    forall|i: int, j: int, l: int|
        0 <= i < surface.batch_axis().len() && 0 <= j < surface.fresh_axis().len() && 0 <= l
            < surface.kv_axis().len() ==> q * (#[trigger] surface.times().element(i, j, l)).value()
            == multilinear(
            f,
            surface.batch_axis()[i].value(),
            surface.fresh_axis()[j].value(),
            surface.kv_axis()[l].value(),
        )
}

/// A multilinear function along each of its coordinates.
pub proof fn lemma_multilinear_slopes(f: Seq<int>, x: int, y: int, z: int)
    ensures
        multilinear(f, x, y, z) == slope_along(f[1], f[4], f[5], f[7], y, z) * x + slope_along(
            f[0],
            f[2],
            f[3],
            f[6],
            y,
            z,
        ),
        multilinear(f, x, y, z) == slope_along(f[2], f[4], f[6], f[7], x, z) * y + slope_along(
            f[0],
            f[1],
            f[3],
            f[5],
            x,
            z,
        ),
        multilinear(f, x, y, z) == slope_along(f[3], f[5], f[6], f[7], x, y) * z + slope_along(
            f[0],
            f[1],
            f[2],
            f[4],
            x,
            y,
        ),
{
    lemma_slope_times(f[1], f[4], f[5], f[7], y, z, x);
    lemma_slope_times(f[2], f[4], f[6], f[7], x, z, y);
    lemma_slope_times(f[3], f[5], f[6], f[7], x, y, z);
    assert(y * x == x * y && z * x == x * z && z * y == y * z) by (nonlinear_arith);
    assert((y * z) * x == (x * y) * z && (x * z) * y == (x * y) * z) by (nonlinear_arith);
}

/// A slope times a coordinate, term by term.
proof fn lemma_slope_times(c: int, c_u: int, c_v: int, c_uv: int, u: int, v: int, t: int)
    ensures
        slope_along(c, c_u, c_v, c_uv, u, v) * t == c * t + c_u * (u * t) + c_v * (v * t) + c_uv * (
        (u * v) * t),
{
    let (a, b, d) = (c_u * u, c_v * v, c_uv * (u * v));
    assert((c + a + b + d) * t == c * t + a * t + b * t + d * t) by (nonlinear_arith);
    lemma_mul_is_associative(c_u, u, t);
    lemma_mul_is_associative(c_v, v, t);
    lemma_mul_is_associative(c_uv, u * v, t);
}

/// Whether blending the corners of a cell is computed without rounding.
pub open spec fn unrounded_blend(
    g: Grid,
    b: int,
    n: int,
    k: int,
    bt: Double,
    nt: Double,
    kt: Double,
) -> bool {
    let c00 = on_line(g.element(b, n, k), g.element(b + 1, n, k), bt);
    let c01 = on_line(g.element(b, n, k + 1), g.element(b + 1, n, k + 1), bt);
    let c10 = on_line(g.element(b, n + 1, k), g.element(b + 1, n + 1, k), bt);
    let c11 = on_line(g.element(b, n + 1, k + 1), g.element(b + 1, n + 1, k + 1), bt);
    &&& unrounded_line(g.element(b, n, k), g.element(b + 1, n, k), bt)
    &&& unrounded_line(g.element(b, n, k + 1), g.element(b + 1, n, k + 1), bt)
    &&& unrounded_line(g.element(b, n + 1, k), g.element(b + 1, n + 1, k), bt)
    &&& unrounded_line(g.element(b, n + 1, k + 1), g.element(b + 1, n + 1, k + 1), bt)
    &&& unrounded_line(c00, c10, nt)
    &&& unrounded_line(c01, c11, nt)
    &&& unrounded_line(on_line(c00, c10, nt), on_line(c01, c11, nt), kt)
}

/// A surface whose times are a multilinear function of its axes, divided by `q`,
/// continues that function along all axes, between the measured points and
/// outside them, wherever no step of the interpolation needs rounding.
pub proof fn law_surface_multilinear(
    surface: PrefillInterp3D,
    x: Double,
    y: Double,
    z: Double,
    q: int,
    f: Seq<int>,
)
    requires
        valid_axis(surface.batch_axis()),
        valid_axis(surface.fresh_axis()),
        valid_axis(surface.kv_axis()),
        x.finite(),
        y.finite(),
        z.finite(),
        is_multilinear(surface, q, f),
        ({
            let i = cell(surface.batch_axis(), x);
            let j = cell(surface.fresh_axis(), y);
            let l = cell(surface.kv_axis(), z);
            &&& unrounded_position(surface.batch_axis(), x, i)
            &&& unrounded_position(surface.fresh_axis(), y, j)
            &&& unrounded_position(surface.kv_axis(), z, l)
            &&& unrounded_blend(
                surface.times(),
                i,
                j,
                l,
                position(surface.batch_axis(), x, i),
                position(surface.fresh_axis(), y, j),
                position(surface.kv_axis(), z, l),
            )
        }),
    ensures
        surface.time_at(x, y, z) matches Ok(time) && time.finite() && q * time.value()
            == multilinear(f, x.value(), y.value(), z.value()),
{
    let xs = surface.batch_axis();
    let ys = surface.fresh_axis();
    let zs = surface.kv_axis();
    let g = surface.times();
    lemma_cell_exists(xs, x);
    lemma_cell_exists(ys, y);
    lemma_cell_exists(zs, z);
    let i = cell(xs, x);
    let j = cell(ys, y);
    let l = cell(zs, z);
    let bt = position(xs, x, i);
    let nt = position(ys, y, j);
    let kt = position(zs, z, l);
    law_position_exact(xs, x, i);
    law_position_exact(ys, y, j);
    law_position_exact(zs, z, l);
    let x0 = xs[i].value();
    let x1 = xs[i + 1].value();
    let y0 = ys[j].value();
    let y1 = ys[j + 1].value();
    let z0 = zs[l].value();
    let z1 = zs[l + 1].value();
    let xv = x.value();
    let yv = y.value();
    let zv = z.value();
    let e000 = g.element(i, j, l);
    let e001 = g.element(i, j, l + 1);
    let e010 = g.element(i, j + 1, l);
    let e011 = g.element(i, j + 1, l + 1);
    let e100 = g.element(i + 1, j, l);
    let e101 = g.element(i + 1, j, l + 1);
    let e110 = g.element(i + 1, j + 1, l);
    let e111 = g.element(i + 1, j + 1, l + 1);
    lemma_line_first(e000, e100, bt, q, f, x0, x1, xv, y0, z0);
    lemma_line_first(e001, e101, bt, q, f, x0, x1, xv, y0, z1);
    lemma_line_first(e010, e110, bt, q, f, x0, x1, xv, y1, z0);
    lemma_line_first(e011, e111, bt, q, f, x0, x1, xv, y1, z1);
    let c00 = on_line(e000, e100, bt);
    let c01 = on_line(e001, e101, bt);
    let c10 = on_line(e010, e110, bt);
    let c11 = on_line(e011, e111, bt);
    lemma_line_second(c00, c10, nt, q, f, xv, y0, y1, yv, z0);
    lemma_line_second(c01, c11, nt, q, f, xv, y0, y1, yv, z1);
    lemma_multilinear_slopes(f, xv, yv, z0);
    lemma_multilinear_slopes(f, xv, yv, z1);
    lemma_multilinear_slopes(f, xv, yv, zv);
    lemma_line_affine(
        on_line(c00, c10, nt),
        on_line(c01, c11, nt),
        kt,
        q,
        slope_along(f[3], f[5], f[6], f[7], xv, yv),
        z0,
        z1,
        zv,
        slope_along(f[0], f[1], f[2], f[4], xv, yv),
    );
}

/// The first axis of a multilinear surface.
proof fn lemma_line_first(
    left: Double,
    right: Double,
    t: Double,
    q: int,
    f: Seq<int>,
    x0: int,
    x1: int,
    x: int,
    y: int,
    z: int,
)
    requires
        unrounded_line(left, right, t),
        t.value() * (x1 - x0) == (x - x0) * pow2(1074),
        q * left.value() == multilinear(f, x0, y, z),
        q * right.value() == multilinear(f, x1, y, z),
    ensures
        on_line(left, right, t).finite(),
        q * on_line(left, right, t).value() == multilinear(f, x, y, z),
{
    lemma_multilinear_slopes(f, x0, y, z);
    lemma_multilinear_slopes(f, x1, y, z);
    lemma_multilinear_slopes(f, x, y, z);
    let a = slope_along(f[1], f[4], f[5], f[7], y, z);
    lemma_line_affine(left, right, t, q, a, x0, x1, x, slope_along(f[0], f[2], f[3], f[6], y, z));
}

/// The second axis of a multilinear surface.
proof fn lemma_line_second(
    left: Double,
    right: Double,
    t: Double,
    q: int,
    f: Seq<int>,
    x: int,
    y0: int,
    y1: int,
    y: int,
    z: int,
)
    requires
        unrounded_line(left, right, t),
        t.value() * (y1 - y0) == (y - y0) * pow2(1074),
        q * left.value() == multilinear(f, x, y0, z),
        q * right.value() == multilinear(f, x, y1, z),
    ensures
        on_line(left, right, t).finite(),
        q * on_line(left, right, t).value() == multilinear(f, x, y, z),
{
    lemma_multilinear_slopes(f, x, y0, z);
    lemma_multilinear_slopes(f, x, y1, z);
    lemma_multilinear_slopes(f, x, y, z);
    let a = slope_along(f[2], f[4], f[6], f[7], x, z);
    lemma_line_affine(left, right, t, q, a, y0, y1, y, slope_along(f[0], f[1], f[3], f[5], x, z));
}

/// At a point of a valid axis, the last one excepted, the cell is the one that
/// begins there, and the position in it is zero.
proof fn lemma_knot(axis: Seq<Double>, value: Double, i: int)
    requires
        valid_axis(axis),
        0 <= i < axis.len() - 1,
        value.finite(),
        value.value() == axis[i].value(),
    ensures
        coordinate_error(axis, value) is None,
        cell(axis, value) == i,
        position(axis, value, i).magnitude() == 0,
{
    assert(axis[i].value() < axis[i + 1].value());
    lemma_cell_unique(axis, value, i);
    let num = difference(value, axis[i]);
    let den = difference(axis[i + 1], axis[i]);
    lemma_difference(value, axis[i]);
    lemma_difference(axis[i + 1], axis[i]);
    lemma_units_zero();
    lemma_units_increase(0, den.magnitude());
    lemma_signed(num.negative() != den.negative(), 0);
    if !den.infinite() {
        assert(units(num.magnitude()) * pow2(1074) == 0) by (nonlinear_arith)
            requires
                units(num.magnitude()) == 0,
        ;
        lemma_round_zero(units(den.magnitude()));
    }
}

/// At the last point of a valid axis, the cell is the last one, and the position
/// in it is one.
proof fn lemma_last_knot(axis: Seq<Double>, value: Double)
    requires
        valid_axis(axis),
        value.finite(),
        value.value() == axis.last().value(),
        difference(axis.last(), axis[axis.len() - 2]).finite(),
    ensures
        coordinate_error(axis, value) is None,
        cell(axis, value) == axis.len() - 2,
        position(axis, value, axis.len() - 2).finite(),
        position(axis, value, axis.len() - 2).value() == pow2(1074),
{
    let i = axis.len() - 2;
    assert(axis[i].value() < axis[i + 1].value());
    lemma_cell_unique(axis, value, i);
    let num = difference(value, axis[i]);
    let den = difference(axis[i + 1], axis[i]);
    lemma_difference(value, axis[i]);
    lemma_difference(axis[i + 1], axis[i]);
    lemma_units_zero();
    lemma_units_increase(0, den.magnitude());
    lemma_one();
    lemma_representable(ratio(1, 1));
    let v = den.value();
    let p = pow2(1074) as int;
    assert(v * p == p * v) by (nonlinear_arith);
    law_quotient_exact(num, den, p);
}

/// Over valid axes, the time at a point is the blend of its cell's corners.
pub proof fn lemma_time_is_blend(surface: PrefillInterp3D, x: Double, y: Double, z: Double)
    requires
        valid_axis(surface.batch_axis()),
        valid_axis(surface.fresh_axis()),
        valid_axis(surface.kv_axis()),
        x.finite() && y.finite() && z.finite(),
    ensures
        ({
            let i = cell(surface.batch_axis(), x);
            let j = cell(surface.fresh_axis(), y);
            let l = cell(surface.kv_axis(), z);
            let grid = surface.times();
            let bt = position(surface.batch_axis(), x, i);
            let nt = position(surface.fresh_axis(), y, j);
            let kt = position(surface.kv_axis(), z, l);
            let c00 = on_line(grid.element(i, j, l), grid.element(i + 1, j, l), bt);
            let c01 = on_line(grid.element(i, j, l + 1), grid.element(i + 1, j, l + 1), bt);
            let c10 = on_line(grid.element(i, j + 1, l), grid.element(i + 1, j + 1, l), bt);
            let c11 = on_line(grid.element(i, j + 1, l + 1), grid.element(i + 1, j + 1, l + 1), bt);
            surface.time_at(x, y, z) == Ok::<Double, InterpolationError>(
                on_line(on_line(c00, c10, nt), on_line(c01, c11, nt), kt),
            )
        }),
{
}

/// A measured surface has a time for every point with finite coordinates, within
/// the measured domain and outside it.
pub proof fn law_surface_total(surface: PrefillInterp3D, b: Double, n: Double, k: Double)
    requires
        measured(surface),
        b.finite(),
        n.finite(),
        k.finite(),
    ensures
        surface.time_at(b, n, k) is Ok,
{
}

/// A surface is undefined at a point that has a coordinate that is not finite.
pub proof fn law_surface_needs_finite(surface: PrefillInterp3D, b: Double, n: Double, k: Double)
    requires
        !b.finite() || !n.finite() || !k.finite(),
    ensures
        surface.time_at(b, n, k) is Err,
{
}

/// Whether a node of a surface is reached without rounding. Where it is not the
/// last point of an axis, it always is, along that axis. Where it is, the axis'
/// last step has to be finite, and the differences between the times at the ends
/// of that step doubles.
pub open spec fn exact_node(surface: PrefillInterp3D, b: int, n: int, k: int) -> bool {
    let xs = surface.batch_axis();
    let ys = surface.fresh_axis();
    let zs = surface.kv_axis();
    let g = surface.times();
    &&& b == xs.len() - 1 ==> {
        &&& difference(xs[b], xs[b - 1]).finite()
        &&& forall|j: int, l: int|
            0 <= j < ys.len() && 0 <= l < zs.len() ==> representable(
                (#[trigger] g.element(b, j, l)).value() - g.element(b - 1, j, l).value(),
            )
    }
    &&& n == ys.len() - 1 ==> {
        &&& difference(ys[n], ys[n - 1]).finite()
        &&& forall|l: int|
            0 <= l < zs.len() ==> representable(
                (#[trigger] g.element(b, n, l)).value() - g.element(b, n - 1, l).value(),
            )
    }
    &&& k == zs.len() - 1 ==> {
        &&& difference(zs[k], zs[k - 1]).finite()
        &&& representable(g.element(b, n, k).value() - g.element(b, n, k - 1).value())
    }
}

/// Whether all times of a surface are finite, and so are the differences between
/// the times at neighbouring points of each axis.
pub open spec fn finite_steps(surface: PrefillInterp3D) -> bool {
    let (bs, ns, ks) = (
        surface.batch_axis().len(),
        surface.fresh_axis().len(),
        surface.kv_axis().len(),
    );
    let g = surface.times();
    &&& forall|i: int, j: int, l: int|
        0 <= i < bs && 0 <= j < ns && 0 <= l < ks ==> (#[trigger] g.element(i, j, l)).finite()
    &&& forall|i: int, next: int, j: int, l: int|
        #![trigger g.element(i, j, l), g.element(next, j, l)]
        0 <= i && next == i + 1 && next < bs && 0 <= j < ns && 0 <= l < ks ==> difference(
            g.element(next, j, l),
            g.element(i, j, l),
        ).finite()
    &&& forall|i: int, j: int, next: int, l: int|
        #![trigger g.element(i, j, l), g.element(i, next, l)]
        0 <= i < bs && 0 <= j && next == j + 1 && next < ns && 0 <= l < ks ==> difference(
            g.element(i, next, l),
            g.element(i, j, l),
        ).finite()
    &&& forall|i: int, j: int, l: int, next: int|
        #![trigger g.element(i, j, l), g.element(i, j, next)]
        0 <= i < bs && 0 <= j < ns && 0 <= l && next == l + 1 && next < ks ==> difference(
            g.element(i, j, next),
            g.element(i, j, l),
        ).finite()
}

/// The times of a measured surface are finite, and so are their differences.
pub proof fn law_measured_steps(surface: PrefillInterp3D)
    requires
        measured(surface),
    ensures
        finite_steps(surface),
{
    let (bs, ns, ks) = (
        surface.batch_axis().len(),
        surface.fresh_axis().len(),
        surface.kv_axis().len(),
    );
    let g = surface.times();
    assert forall|i: int, j: int, l: int|
        0 <= i < bs && 0 <= j < ns && 0 <= l < ks implies (#[trigger] g.element(i, j, l)).finite()
        && g.element(i, j, l).value() >= 0 by {
        lemma_corner(g, i, j, l);
    }
    assert forall|i: int, next: int, j: int, l: int|
        #![trigger g.element(i, j, l), g.element(next, j, l)]
        0 <= i && next == i + 1 && next < bs && 0 <= j < ns && 0 <= l < ks implies difference(
        g.element(next, j, l),
        g.element(i, j, l),
    ).finite() by {
        lemma_difference_finite(g.element(next, j, l), g.element(i, j, l));
    }
    assert forall|i: int, j: int, next: int, l: int|
        #![trigger g.element(i, j, l), g.element(i, next, l)]
        0 <= i < bs && 0 <= j && next == j + 1 && next < ns && 0 <= l < ks implies difference(
        g.element(i, next, l),
        g.element(i, j, l),
    ).finite() by {
        lemma_difference_finite(g.element(i, next, l), g.element(i, j, l));
    }
    assert forall|i: int, j: int, l: int, next: int|
        #![trigger g.element(i, j, l), g.element(i, j, next)]
        0 <= i < bs && 0 <= j < ns && 0 <= l && next == l + 1 && next < ks implies difference(
        g.element(i, j, next),
        g.element(i, j, l),
    ).finite() by {
        lemma_difference_finite(g.element(i, j, next), g.element(i, j, l));
    }
}

/// A surface passes through its times: at the points of the axes it gives the
/// number that stands there, the last point of an axis included where the step to
/// it is not rounded. The times may be negative.
pub proof fn law_surface_reproduces(
    surface: PrefillInterp3D,
    b: int,
    n: int,
    k: int,
    x: Double,
    y: Double,
    z: Double,
)
    requires
        valid_axis(surface.batch_axis()),
        valid_axis(surface.fresh_axis()),
        valid_axis(surface.kv_axis()),
        finite_steps(surface),
        0 <= b < surface.batch_axis().len(),
        0 <= n < surface.fresh_axis().len(),
        0 <= k < surface.kv_axis().len(),
        x.finite() && x.value() == surface.batch_axis()[b].value(),
        y.finite() && y.value() == surface.fresh_axis()[n].value(),
        z.finite() && z.value() == surface.kv_axis()[k].value(),
        exact_node(surface, b, n, k),
    ensures
        surface.time_at(x, y, z) matches Ok(time) && time.finite() && time.value()
            == surface.times().element(b, n, k).value(),
{
    let g = surface.times();
    let xs = surface.batch_axis();
    let ys = surface.fresh_axis();
    let zs = surface.kv_axis();
    let i = lemma_node(xs, x, b);
    let j = lemma_node(ys, y, n);
    let l = lemma_node(zs, z, k);
    let bt = position(xs, x, i);
    let nt = position(ys, y, j);
    let kt = position(zs, z, l);
    lemma_node_face(surface, b, n, k, i, j, l, bt, nt);
    lemma_node_face(surface, b, n, k, i, j, l + 1, bt, nt);
    let c00 = on_line(g.element(i, j, l), g.element(i + 1, j, l), bt);
    let c01 = on_line(g.element(i, j, l + 1), g.element(i + 1, j, l + 1), bt);
    let c10 = on_line(g.element(i, j + 1, l), g.element(i + 1, j + 1, l), bt);
    let c11 = on_line(g.element(i, j + 1, l + 1), g.element(i + 1, j + 1, l + 1), bt);
    let d0 = on_line(c00, c10, nt);
    let d1 = on_line(c01, c11, nt);
    lemma_node_end(surface, b, n, k, l, d0, d1, kt);
    lemma_time_is_blend(surface, x, y, z);
}

/// The last axis of the way to a node.
proof fn lemma_node_end(
    surface: PrefillInterp3D,
    b: int,
    n: int,
    k: int,
    l: int,
    d0: Double,
    d1: Double,
    kt: Double,
)
    requires
        finite_steps(surface),
        surface.kv_axis().len() >= 2,
        exact_node(surface, b, n, k),
        0 <= b < surface.batch_axis().len(),
        0 <= n < surface.fresh_axis().len(),
        0 <= k < surface.kv_axis().len(),
        l == (if k == surface.kv_axis().len() - 1 { k - 1 } else { k }),
        k == surface.kv_axis().len() - 1 ==> kt.finite() && kt.value() == pow2(1074),
        k < surface.kv_axis().len() - 1 ==> kt.magnitude() == 0,
        d0.finite() && d0.value() == surface.times().element(b, n, l).value(),
        d1.finite() && d1.value() == surface.times().element(b, n, l + 1).value(),
    ensures
        on_line(d0, d1, kt).finite(),
        on_line(d0, d1, kt).value() == surface.times().element(b, n, k).value(),
{
    let g = surface.times();
    lemma_same_difference(g.element(b, n, l + 1), g.element(b, n, l), d1, d0);
    lemma_line_node(d0, d1, kt, k == surface.kv_axis().len() - 1);
}

/// The first axis of the way to a node.
proof fn lemma_node_row(
    surface: PrefillInterp3D,
    b: int,
    n: int,
    k: int,
    i: int,
    j: int,
    l: int,
    bt: Double,
)
    requires
        finite_steps(surface),
        surface.batch_axis().len() >= 2,
        surface.fresh_axis().len() >= 2,
        exact_node(surface, b, n, k),
        0 <= b < surface.batch_axis().len(),
        0 <= j < surface.fresh_axis().len(),
        0 <= l < surface.kv_axis().len(),
        i == (if b == surface.batch_axis().len() - 1 { b - 1 } else { b }),
        b == surface.batch_axis().len() - 1 ==> bt.finite() && bt.value() == pow2(1074),
        b < surface.batch_axis().len() - 1 ==> bt.magnitude() == 0,
    ensures
        ({
            let g = surface.times();
            let r = on_line(g.element(i, j, l), g.element(i + 1, j, l), bt);
            r.finite() && r.value() == g.element(b, j, l).value()
        }),
{
    let g = surface.times();
    lemma_line_node(
        g.element(i, j, l),
        g.element(i + 1, j, l),
        bt,
        b == surface.batch_axis().len() - 1,
    );
}

/// The first two axes of the way to a node.
proof fn lemma_node_face(
    surface: PrefillInterp3D,
    b: int,
    n: int,
    k: int,
    i: int,
    j: int,
    l: int,
    bt: Double,
    nt: Double,
)
    requires
        finite_steps(surface),
        surface.batch_axis().len() >= 2,
        surface.fresh_axis().len() >= 2,
        exact_node(surface, b, n, k),
        0 <= b < surface.batch_axis().len(),
        0 <= n < surface.fresh_axis().len(),
        0 <= l < surface.kv_axis().len(),
        i == (if b == surface.batch_axis().len() - 1 { b - 1 } else { b }),
        b == surface.batch_axis().len() - 1 ==> bt.finite() && bt.value() == pow2(1074),
        b < surface.batch_axis().len() - 1 ==> bt.magnitude() == 0,
        j == (if n == surface.fresh_axis().len() - 1 { n - 1 } else { n }),
        n == surface.fresh_axis().len() - 1 ==> nt.finite() && nt.value() == pow2(1074),
        n < surface.fresh_axis().len() - 1 ==> nt.magnitude() == 0,
    ensures
        ({
            let g = surface.times();
            let c0 = on_line(g.element(i, j, l), g.element(i + 1, j, l), bt);
            let c1 = on_line(g.element(i, j + 1, l), g.element(i + 1, j + 1, l), bt);
            let r = on_line(c0, c1, nt);
            r.finite() && r.value() == g.element(b, n, l).value()
        }),
{
    let g = surface.times();
    lemma_node_row(surface, b, n, k, i, j, l, bt);
    lemma_node_row(surface, b, n, k, i, j + 1, l, bt);
    let c0 = on_line(g.element(i, j, l), g.element(i + 1, j, l), bt);
    let c1 = on_line(g.element(i, j + 1, l), g.element(i + 1, j + 1, l), bt);
    lemma_same_difference(g.element(b, j + 1, l), g.element(b, j, l), c1, c0);
    lemma_line_node(
        c0,
        c1,
        nt,
        n == surface.fresh_axis().len() - 1,
    );
}

/// The cell that serves a point of an axis, with the position of the point in it.
proof fn lemma_node(axis: Seq<Double>, value: Double, b: int) -> (i: int)
    requires
        valid_axis(axis),
        0 <= b < axis.len(),
        value.finite(),
        value.value() == axis[b].value(),
        b == axis.len() - 1 ==> difference(axis[b], axis[b - 1]).finite(),
    ensures
        coordinate_error(axis, value) is None,
        i == cell(axis, value),
        i == (if b == axis.len() - 1 { b - 1 } else { b }),
        b == axis.len() - 1 ==> position(axis, value, i).finite() && position(
            axis,
            value,
            i,
        ).value() == pow2(1074),
        b < axis.len() - 1 ==> position(axis, value, i).magnitude() == 0,
{
    if b == axis.len() - 1 {
        lemma_last_knot(axis, value);
        b - 1
    } else {
        lemma_knot(axis, value, b);
        b
    }
}

/// Whether a difference is finite depends on the values alone.
proof fn lemma_same_difference(a: Double, b: Double, c: Double, d: Double)
    requires
        a.finite() && b.finite() && c.finite() && d.finite(),
        a.value() == c.value(),
        b.value() == d.value(),
        difference(a, b).finite(),
    ensures
        difference(c, d).finite(),
{
    lemma_difference(a, b);
    lemma_difference(c, d);
}

/// An end of a line.
proof fn lemma_line_node(left: Double, right: Double, t: Double, last: bool)
    requires
        left.finite(),
        right.finite(),
        difference(right, left).finite(),
        last ==> t.finite() && t.value() == pow2(1074) && representable(
            right.value() - left.value(),
        ),
        !last ==> t.magnitude() == 0,
    ensures
        on_line(left, right, t).finite(),
        on_line(left, right, t).value() == (if last { right } else { left }).value(),
{
    if last {
        law_line_end(left, right, t);
    } else {
        law_line_start(left, right, t);
    }
}

/// The elements of a grid of durations are durations.
proof fn lemma_corner(g: Grid, i: int, j: int, k: int)
    requires
        0 <= i < g.extents().0,
        0 <= j < g.extents().1,
        0 <= k < g.extents().2,
        g.elements().len() == g.extents().0 * g.extents().1 * g.extents().2,
        all_durations(g.elements()),
    ensures
        g.element(i, j, k).finite(),
        g.element(i, j, k).value() >= 0,
{
    lemma_offset(g.extents(), i, j, k);
}

/// The coordinate of a legacy profile is the total number of new tokens of the
/// batch, rounded once, wherever the batch size and the fresh tokens per request
/// are not rounded themselves.
pub proof fn law_legacy_total(batch_size: nat, fresh: nat)
    requires
        ratio(batch_size, 1).finite() && ratio(batch_size, 1).value() == batch_size * pow2(1074),
        ratio(fresh, 1).finite() && ratio(fresh, 1).value() == fresh * pow2(1074),
    ensures
        product(ratio(batch_size, 1), ratio(fresh, 1)) == ratio(batch_size * fresh, 1),
{
    let a = ratio(batch_size, 1);
    let b = ratio(fresh, 1);
    let p = pow2(1074);
    lemma_pow2_pos(1074);
    lemma_signed(false, round_ratio(batch_size * p, 1));
    lemma_signed(false, round_ratio(fresh * p, 1));
    assert(units(a.magnitude()) * units(b.magnitude()) == ((batch_size * fresh) * p) * p)
        by (nonlinear_arith)
        requires
            units(a.magnitude()) == batch_size * p,
            units(b.magnitude()) == fresh * p,
    ;
    assert(1 * p == p);
    lemma_round_ratio_cancel((batch_size * fresh) * p, 1, p);
}

/// Whether `time` is a prefill time that a legacy table gives for a total of new
/// tokens: its answer there, or zero if that is more or there is none.
pub open spec fn table_outcome<T: PrefillTable>(
    table: PrefillInterp1D<T>,
    total: nat,
    time: Double,
) -> bool {
    exists|found: Result<Double, InterpolateError>|
        {
            &&& #[trigger] call_ensures(
                T::interp_scalar,
                (&table.inner, ratio(total, 1)),
                found,
            )
            &&& time == larger(time_or_none(found), no_time())
        }
}

/// A prefill time comes of a source of timings.
proof fn lemma_source_of<P: PrefillInterpolator, D: DecodeInterpolator, C: AicCallback>(
    model: PerfModel<P, D, C>,
    batch_size: usize,
    isl: usize,
    prefix: usize,
    time: Double,
) -> (raw: Double)
    requires
        batch_size > 0,
        isl > prefix,
        model.prefill_outcome(batch_size, isl, prefix, time),
    ensures
        model.prefill_source(batch_size, (isl - prefix) as usize, prefix, raw),
        time == larger(raw, no_time()),
{
    choose|raw: Double|
        {
            &&& #[trigger] model.prefill_source(
                batch_size,
                fresh_tokens(isl, prefix),
                prefix,
                raw,
            )
            &&& time == larger(raw, no_time())
        }
}

/// What a source of timings gives, floored, is a prefill time.
proof fn lemma_outcome_of<P: PrefillInterpolator, D: DecodeInterpolator, C: AicCallback>(
    model: PerfModel<P, D, C>,
    batch_size: usize,
    isl: usize,
    prefix: usize,
    raw: Double,
    time: Double,
)
    requires
        batch_size > 0,
        isl > prefix,
        model.prefill_source(batch_size, (isl - prefix) as usize, prefix, raw),
        time == larger(raw, no_time()),
    ensures
        model.prefill_outcome(batch_size, isl, prefix, time),
{
    assert(model.prefill_source(batch_size, fresh_tokens(isl, prefix), prefix, raw));
}

/// The coordinate of a legacy table is the total of new tokens.
proof fn lemma_legacy_coordinate(batch_size: nat, fresh: nat)
    requires
        batch_size * fresh < 0x20_0000_0000_0000,
        batch_size > 0,
        fresh > 0,
    ensures
        product(ratio(batch_size, 1), ratio(fresh, 1)) == ratio(batch_size * fresh, 1),
{
    assert(batch_size <= batch_size * fresh && fresh <= batch_size * fresh) by (nonlinear_arith)
        requires
            batch_size > 0,
            fresh > 0,
    ;
    law_integer_exact(batch_size);
    law_integer_exact(fresh);
    law_legacy_total(batch_size, fresh);
}

/// What a legacy table answers, its surface and a model with it may answer.
proof fn lemma_legacy_source<T: PrefillTable, D: DecodeInterpolator, C: AicCallback>(
    model: PerfModel<PrefillProfile<T>, D, C>,
    table: PrefillInterp1D<T>,
    batch_size: usize,
    fresh: usize,
    prefix: usize,
    x: Double,
    found: Result<Double, InterpolateError>,
)
    requires
        model is Interpolated,
        *model->prefill_interp == PrefillProfile::Legacy(table),
        x == product(ratio(batch_size as nat, 1), ratio(fresh as nat, 1)),
        call_ensures(T::interp_scalar, (&table.inner, x), found),
    ensures
        model.prefill_source(batch_size, fresh, prefix, time_or_none(found)),
{
    let answer = table_answer(found);
    let b = ratio(batch_size as nat, 1);
    let n = ratio(fresh as nat, 1);
    let k = ratio(prefix as nat, 1);
    assert(table.may_answer(b, n, k, answer));
    assert((*model->prefill_interp).may_answer(b, n, k, answer));
    assert(time_or_none(found) == time_or_none(answer));
}

/// What a model with a legacy table gives, the table answers.
proof fn lemma_legacy_found<T: PrefillTable, D: DecodeInterpolator, C: AicCallback>(
    model: PerfModel<PrefillProfile<T>, D, C>,
    table: PrefillInterp1D<T>,
    batch_size: usize,
    fresh: usize,
    prefix: usize,
    x: Double,
    raw: Double,
) -> (found: Result<Double, InterpolateError>)
    requires
        model is Interpolated,
        *model->prefill_interp == PrefillProfile::Legacy(table),
        x == product(ratio(batch_size as nat, 1), ratio(fresh as nat, 1)),
        model.prefill_source(batch_size, fresh, prefix, raw),
    ensures
        call_ensures(T::interp_scalar, (&table.inner, x), found),
        raw == time_or_none(found),
{
    let b = ratio(batch_size as nat, 1);
    let n = ratio(fresh as nat, 1);
    let k = ratio(prefix as nat, 1);
    let answer = choose|answer: Result<Double, InterpolationError>|
        {
            &&& #[trigger] (*model->prefill_interp).may_answer(b, n, k, answer)
            &&& raw == time_or_none(answer)
        };
    assert(table.may_answer(b, n, k, answer));
    choose|found: Result<Double, InterpolateError>|
        {
            &&& #[trigger] call_ensures(T::interp_scalar, (&table.inner, x), found)
            &&& answer == table_answer(found)
        }
}

/// A legacy profile goes by what its table answers at the total number of new
/// tokens, below two to the power of 53 of them without rounding.
pub proof fn law_legacy_prediction<T: PrefillTable, D: DecodeInterpolator, C: AicCallback>(
    model: PerfModel<PrefillProfile<T>, D, C>,
    table: PrefillInterp1D<T>,
    batch_size: usize,
    isl: usize,
    prefix: usize,
    time: Double,
)
    requires
        model is Interpolated,
        *model->prefill_interp == PrefillProfile::Legacy(table),
        batch_size > 0,
        isl > prefix,
        batch_size * (isl - prefix) < 0x20_0000_0000_0000,
    ensures
        model.prefill_outcome(batch_size, isl, prefix, time) == table_outcome(
            table,
            (batch_size * (isl - prefix)) as nat,
            time,
        ),
{
    let fresh = (isl - prefix) as usize;
    let total = (batch_size * (isl - prefix)) as nat;
    let x = ratio(total, 1);
    assert(batch_size as nat * fresh as nat == total);
    lemma_legacy_coordinate(batch_size as nat, fresh as nat);
    if model.prefill_outcome(batch_size, isl, prefix, time) {
        let raw = lemma_source_of(model, batch_size, isl, prefix, time);
        let found = lemma_legacy_found(model, table, batch_size, fresh, prefix, x, raw);
        assert(table_outcome(table, total, time));
    }
    if table_outcome(table, total, time) {
        let found = choose|found: Result<Double, InterpolateError>|
            {
                &&& #[trigger] call_ensures(T::interp_scalar, (&table.inner, x), found)
                &&& time == larger(time_or_none(found), no_time())
            };
        lemma_legacy_source(model, table, batch_size, fresh, prefix, x, found);
        lemma_outcome_of(model, batch_size, isl, prefix, time_or_none(found), time);
    }
}

/// A polynomial model goes by the formula at the total number of new tokens.
proof fn lemma_polynomial_outcome<P: PrefillInterpolator, D: DecodeInterpolator, C: AicCallback>(
    model: PerfModel<P, D, C>,
    batch_size: usize,
    isl: usize,
    prefix: usize,
    time: Double,
)
    requires
        model is Polynomial,
        batch_size > 0,
        isl > prefix,
    ensures
        model.prefill_outcome(batch_size, isl, prefix, time) == (time == larger(
            prefill_formula((batch_size * (isl - prefix)) as nat),
            no_time(),
        )),
{
    let raw = prefill_formula((batch_size * (isl - prefix)) as nat);
    assert(model.prefill_source(batch_size, fresh_tokens(isl, prefix), prefix, raw));
}

/// The table of a model with a legacy profile.
spec fn legacy_table<T, D, C>(model: PerfModel<PrefillProfile<T>, D, C>) -> PrefillInterp1D<T> {
    (*model->prefill_interp)->Legacy_0
}

/// Polynomial models and legacy profiles go by the total number of new tokens: what
/// a batch may take is what a single request for all its fresh tokens may take. The
/// total that a table is asked for is not rounded below two to the power of 53.
pub proof fn law_prefill_total<T: PrefillTable, D: DecodeInterpolator, C: AicCallback>(
    model: PerfModel<PrefillProfile<T>, D, C>,
    batch_size: usize,
    isl: usize,
    prefix: usize,
    total: usize,
    time: Double,
)
    requires
        total == batch_size * fresh_tokens(isl, prefix),
        model is Polynomial || {
            &&& model is Interpolated
            &&& *model->prefill_interp is Legacy
            &&& total < 0x20_0000_0000_0000
        },
    ensures
        model.prefill_outcome(batch_size, isl, prefix, time) == model.prefill_outcome(
            1,
            total,
            0,
            time,
        ),
{
    if batch_size == 0 || isl <= prefix {
        assert(total == 0) by (nonlinear_arith)
            requires
                total == batch_size * fresh_tokens(isl, prefix),
                batch_size == 0 || fresh_tokens(isl, prefix) == 0,
        ;
    } else {
        assert(total > 0) by (nonlinear_arith)
            requires
                total == batch_size * fresh_tokens(isl, prefix),
                batch_size > 0,
                fresh_tokens(isl, prefix) > 0,
        ;
        if model is Interpolated {
            let table = legacy_table(model);
            law_legacy_prediction(model, table, batch_size, isl, prefix, time);
            law_legacy_prediction(model, table, 1, total, 0, time);
        } else {
            lemma_polynomial_outcome(model, batch_size, isl, prefix, time);
            lemma_polynomial_outcome(model, 1, total, 0, time);
        }
    }
}

/// Whether a table gives the same answer whenever it is asked at a coordinate.
pub open spec fn answers_once<T: PrefillTable>(table: PrefillInterp1D<T>, x: Double) -> bool {
    forall|first: Result<Double, InterpolateError>, second: Result<Double, InterpolateError>|
        #[trigger] call_ensures(T::interp_scalar, (&table.inner, x), first)
            && #[trigger] call_ensures(T::interp_scalar, (&table.inner, x), second) ==> first
            == second
}

/// A table that answers alike gives one time.
proof fn lemma_table_outcome_once<T: PrefillTable>(
    table: PrefillInterp1D<T>,
    total: nat,
    first: Double,
    second: Double,
)
    requires
        answers_once(table, ratio(total, 1)),
        table_outcome(table, total, first),
        table_outcome(table, total, second),
    ensures
        first == second,
{
}

/// A batch takes as long as a single request for all its fresh tokens, in a
/// polynomial model, and in a legacy profile whose table answers alike when it is
/// asked twice. Tables come from outside the library, which computes in no floating
/// point of its own and cannot promise that for them.
pub proof fn law_prefill_total_equal<T: PrefillTable, D: DecodeInterpolator, C: AicCallback>(
    model: PerfModel<PrefillProfile<T>, D, C>,
    table: PrefillInterp1D<T>,
    batch_size: usize,
    isl: usize,
    prefix: usize,
    total: usize,
    time: Double,
    time_of_one: Double,
)
    requires
        total == batch_size * fresh_tokens(isl, prefix),
        model.prefill_outcome(batch_size, isl, prefix, time),
        model.prefill_outcome(1, total, 0, time_of_one),
        model is Polynomial || {
            &&& model is Interpolated
            &&& *model->prefill_interp == PrefillProfile::Legacy(table)
            &&& total < 0x20_0000_0000_0000
            &&& answers_once(table, ratio(total as nat, 1))
        },
    ensures
        time == time_of_one,
{
    law_prefill_total(model, batch_size, isl, prefix, total, time);
    if total > 0 {
        if model is Polynomial {
            lemma_polynomial_outcome(model, 1, total, 0, time);
            lemma_polynomial_outcome(model, 1, total, 0, time_of_one);
        } else {
            law_legacy_prediction(model, table, 1, total, 0, time);
            law_legacy_prediction(model, table, 1, total, 0, time_of_one);
            lemma_table_outcome_once(table, total as nat, time, time_of_one);
        }
    }
}

/// Loading a batch-aware profile takes three steps: its arrays, the decode arrays
/// and the decode table. The model that comes of it interpolates between the
/// times that were read, and both its grids have one time for each combination
/// of axis points.
pub proof fn law_loaded_batch_aware<T, D, C>(
    arrays: LoadEvent<T, D>,
    shape: LoadEvent<T, D>,
    table: LoadEvent<T, D>,
    second: LoadState<T>,
    third: LoadState<T>,
    model: PerfModel<PrefillProfile<T>, D, C>,
)
    requires
        answers(LoadState::<T>::BatchAwareArrays, arrays),
        advanced::<T, D, C>(
            LoadState::BatchAwareArrays,
            arrays,
            Ok(LoadProgress::Next { state: second }),
        ),
        answers(second, shape),
        advanced::<T, D, C>(second, shape, Ok(LoadProgress::Next { state: third })),
        answers(third, table),
        advanced::<T, D, C>(third, table, Ok(LoadProgress::Ready { model })),
    ensures
        second.reads() == seq![
            ArrayName::DecodeActiveKvTokens,
            ArrayName::DecodeContextLength,
            ArrayName::DecodeItl,
        ],
        shape->rows == shape->active_kv,
        shape->cols == shape->context,
        model is Interpolated,
        *model->decode_interp == table->decode,
        *model->prefill_interp matches PrefillProfile::BatchAware(surface) && {
            &&& measured(surface)
            &&& surface.batch_axis() == arrays->batch_size@
            &&& surface.fresh_axis() == arrays->new_tokens_per_request@
            &&& surface.kv_axis() == arrays->kv_read_tokens_per_request@
            &&& surface.times() == arrays->values_ms
        },
{
}

/// Loading a legacy profile takes four steps: its arrays, its table, the decode
/// arrays and the decode table. The model that comes of it has both tables, and
/// the decode grid has one time for each combination of axis points.
pub proof fn law_loaded_legacy<T, D, C>(
    arrays: LoadEvent<T, D>,
    prefill: LoadEvent<T, D>,
    shape: LoadEvent<T, D>,
    table: LoadEvent<T, D>,
    second: LoadState<T>,
    third: LoadState<T>,
    fourth: LoadState<T>,
    model: PerfModel<PrefillProfile<T>, D, C>,
)
    requires
        answers(LoadState::<T>::LegacyArrays, arrays),
        advanced::<T, D, C>(
            LoadState::LegacyArrays,
            arrays,
            Ok(LoadProgress::Next { state: second }),
        ),
        answers(second, prefill),
        advanced::<T, D, C>(second, prefill, Ok(LoadProgress::Next { state: third })),
        answers(third, shape),
        advanced::<T, D, C>(third, shape, Ok(LoadProgress::Next { state: fourth })),
        answers(fourth, table),
        advanced::<T, D, C>(fourth, table, Ok(LoadProgress::Ready { model })),
    ensures
        arrays->isl == arrays->ttft,
        third.reads() == seq![
            ArrayName::DecodeActiveKvTokens,
            ArrayName::DecodeContextLength,
            ArrayName::DecodeItl,
        ],
        shape->rows == shape->active_kv,
        shape->cols == shape->context,
        model is Interpolated,
        *model->prefill_interp == PrefillProfile::Legacy(
            PrefillInterp1D { inner: prefill->legacy },
        ),
        *model->decode_interp == table->decode,
{
}

/// A batch-aware profile is read at the batch size, the fresh tokens per request
/// and the prefix tokens per request, and always has a time there.
pub proof fn law_batch_aware_prediction<
    T: PrefillTable,
    D: DecodeInterpolator,
    C: AicCallback,
>(
    model: PerfModel<PrefillProfile<T>, D, C>,
    surface: PrefillInterp3D,
    batch_size: usize,
    fresh: usize,
    prefix: usize,
    raw: Double,
)
    requires
        model is Interpolated,
        *model->prefill_interp == PrefillProfile::<T>::BatchAware(surface),
        measured(surface),
        model.prefill_source(batch_size, fresh, prefix, raw),
    ensures
        surface.time_at(
            ratio(batch_size as nat, 1),
            ratio(fresh as nat, 1),
            ratio(prefix as nat, 1),
        ) == Ok::<Double, InterpolationError>(raw),
{
    lemma_integer_finite(batch_size as nat);
    lemma_integer_finite(fresh as nat);
    lemma_integer_finite(prefix as nat);
    law_surface_total(
        surface,
        ratio(batch_size as nat, 1),
        ratio(fresh as nat, 1),
        ratio(prefix as nat, 1),
    );
}

/// Whether a number is non-negative and at most two to the power of `e`.
spec fn within(x: Double, e: nat) -> bool {
    !x.negative() && x.magnitude() <= (1023 + e) * BINADE
}

/// What the bound of [`within`] stands for.
proof fn lemma_bound_units(e: nat)
    ensures
        units((1023 + e) * BINADE as nat) == pow2(1074 + e),
{
    let m = (1023 + e) * BINADE as nat;
    assert(m / BINADE as nat == 1023 + e);
    assert(exponent(m) == 1022 + e);
    assert(significand(m) == BINADE);
    lemma2_to64_rest();
    lemma_pow2_adds(52, 1022 + e);
}

/// Bounds of magnitudes are bounds of units.
proof fn lemma_within_units(x: Double, e: nat)
    requires
        within(x, e),
    ensures
        units(x.magnitude()) <= pow2(1074 + e),
{
    lemma_bound_units(e);
    if x.magnitude() < (1023 + e) * BINADE {
        lemma_units_increase(x.magnitude(), (1023 + e) * BINADE as nat);
    }
}

/// Products of bounded numbers are bounded, and grow with their factors.
proof fn lemma_product_monotone(a: Double, b: Double, x: Double, y: Double, e: nat, f: nat)
    requires
        within(x, e),
        within(y, f),
        !a.negative(),
        !b.negative(),
        a.magnitude() <= x.magnitude(),
        b.magnitude() <= y.magnitude(),
        e + f < 1000,
    ensures
        within(product(x, y), e + f),
        !product(a, b).negative(),
        product(a, b).magnitude() <= product(x, y).magnitude(),
{
    let p = pow2(1074);
    let ua = units(a.magnitude());
    let ub = units(b.magnitude());
    let ux = units(x.magnitude());
    let uy = units(y.magnitude());
    lemma_pow2_pos(1074);
    if a.magnitude() < x.magnitude() {
        lemma_units_increase(a.magnitude(), x.magnitude());
    }
    if b.magnitude() < y.magnitude() {
        lemma_units_increase(b.magnitude(), y.magnitude());
    }
    lemma_within_units(x, e);
    lemma_within_units(y, f);
    assert((ua * ub) * p <= (ux * uy) * p) by (nonlinear_arith)
        requires
            ua <= ux,
            ub <= uy,
    ;
    law_round_monotone(ua * ub, p, ux * uy, p);
    let m = (1023 + e + f) * BINADE as nat;
    lemma_bound_units(e + f);
    law_round_exact(m, p);
    lemma_pow2_adds(1074 + e, 1074 + f);
    lemma_pow2_adds(1074 + e + f, 1074);
    assert(ux * uy <= units(m) * p) by (nonlinear_arith)
        requires
            ux <= pow2(1074 + e),
            uy <= pow2(1074 + f),
            pow2(1074 + e) * pow2(1074 + f) == units(m) * p,
    ;
    assert((ux * uy) * p <= (units(m) * p) * p) by (nonlinear_arith)
        requires
            ux * uy <= units(m) * p,
    ;
    law_round_monotone(ux * uy, p, units(m) * p, p);
    lemma_signed(false, round_ratio(ux * uy, p));
    lemma_signed(false, round_ratio(ua * ub, p));
}

/// Sums of bounded numbers are bounded, and grow with their terms.
proof fn lemma_sum_monotone(a: Double, b: Double, x: Double, y: Double, e: nat)
    requires
        within(x, e),
        within(y, e),
        !a.negative(),
        !b.negative(),
        a.magnitude() <= x.magnitude(),
        b.magnitude() <= y.magnitude(),
        e < 1000,
    ensures
        within(sum(x, y), e + 1),
        !sum(a, b).negative(),
        sum(a, b).magnitude() <= sum(x, y).magnitude(),
{
    let ua = units(a.magnitude());
    let ub = units(b.magnitude());
    let ux = units(x.magnitude());
    let uy = units(y.magnitude());
    if a.magnitude() < x.magnitude() {
        lemma_units_increase(a.magnitude(), x.magnitude());
    }
    if b.magnitude() < y.magnitude() {
        lemma_units_increase(b.magnitude(), y.magnitude());
    }
    lemma_within_units(x, e);
    lemma_within_units(y, e);
    law_round_monotone(ua + ub, 1, ux + uy, 1);
    let m = (1024 + e) * BINADE as nat;
    lemma_bound_units(e + 1);
    law_round_exact(m, 1);
    lemma_pow2_unfold(1075 + e);
    law_round_monotone(ux + uy, 1, units(m) * 1, 1);
    lemma_round_zero(1);
    lemma_signed(false, 0);
    lemma_signed(false, round_ratio(ux + uy, 1));
    lemma_signed(false, round_ratio(ua + ub, 1));
}

/// A ratio that is at most two to the power of `e` is within that bound.
proof fn lemma_ratio_within(n: nat, d: nat, e: nat)
    requires
        d > 0,
        n <= d * pow2(e),
        e < 1000,
    ensures
        within(ratio(n, d), e),
{
    let m = (1023 + e) * BINADE as nat;
    let p = pow2(1074);
    lemma_bound_units(e);
    law_round_exact(m, 1);
    lemma_pow2_adds(e, 1074);
    assert((n * p) * 1 <= (units(m) * 1) * d) by (nonlinear_arith)
        requires
            n <= d * pow2(e),
            units(m) == pow2(e) * p,
    ;
    law_round_monotone(n * p, d, units(m) * 1, 1);
    lemma_signed(false, round_ratio(n * p, d));
}

/// The polynomial prefill time is finite and never falls as tokens are added.
pub proof fn law_prefill_formula_monotone(fewer: nat, more: nat)
    requires
        fewer <= more <= u64::MAX,
    ensures
        prefill_formula(more).finite(),
        0 <= prefill_formula(fewer).value() <= prefill_formula(more).value(),
{
    let s = ratio(fewer, 1);
    let t = ratio(more, 1);
    let c2 = ratio(4209989, 10_000_000_000_000);
    let c1 = ratio(1518344, 100_000_000);
    let c0 = ratio(1650142, 100_000);
    lemma2_to64();
    lemma2_to64_rest();
    lemma_ratio_within(4209989, 10_000_000_000_000, 0);
    lemma_ratio_within(1518344, 100_000_000, 0);
    lemma_ratio_within(1650142, 100_000, 5);
    lemma_ratio_within(more, 1, 64);
    lemma_integer_finite(fewer);
    lemma_integer_finite(more);
    let p = pow2(1074);
    assert((fewer * p) * 1 <= (more * p) * 1) by (nonlinear_arith)
        requires
            fewer <= more,
    ;
    law_round_monotone(fewer * p, 1, more * p, 1);
    lemma_product_monotone(s, s, t, t, 64, 64);
    lemma_product_monotone(c2, product(s, s), c2, product(t, t), 0, 128);
    lemma_product_monotone(c1, s, c1, t, 0, 64);
    let q = product(c2, product(t, t));
    let l = product(c1, t);
    assert(within(q, 200));
    assert(within(l, 200));
    assert(within(c0, 201));
    lemma_sum_monotone(product(c2, product(s, s)), product(c1, s), q, l, 200);
    lemma_sum_monotone(
        sum(product(c2, product(s, s)), product(c1, s)),
        c0,
        sum(q, l),
        c0,
        201,
    );
    lemma_units_zero();
    let a = prefill_formula(fewer);
    let b = prefill_formula(more);
    if a.magnitude() < b.magnitude() {
        lemma_units_increase(a.magnitude(), b.magnitude());
    }
}

} // verus!
