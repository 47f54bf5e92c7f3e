//! The polynomial decode time by the share of the KV tokens that is active.

use vstd::arithmetic::power2::{
    lemma2_to64, lemma2_to64_rest, lemma_pow2_adds, lemma_pow2_pos, pow2,
};
use vstd::math::abs;
use vstd::prelude::*;

use crate::accuracy::{
    lemma_product_error, lemma_quotient_error, lemma_round_error, lemma_sum_error,
};
use crate::double::{
    law_integer_exact, law_product_exact, law_quotient_exact, law_sum_exact, lemma_abs_product,
    lemma_one, lemma_signed, opposite, product, quotient, ratio, representable, sum, Double,
};
use crate::interpolator::{AicCallback, DecodeInterpolator, PrefillInterpolator};
use crate::model::{active_share, decode_formula, PerfModel};
use crate::rounding::{lemma_round_bounded, lemma_units_zero, round_ratio, units};

verus! {

broadcast use lemma_round_bounded;

/// A decimal constant of the formula: at most two to the power of `e`, and off by
/// at most half the spacing of the doubles below that.
proof fn lemma_constant(n: nat, d: nat, e: nat)
    requires
        0 < d,
        n <= d * pow2(e),
        e <= 53,
    ensures
        ratio(n, d).finite(),
        0 <= ratio(n, d).value() <= pow2(1074) * pow2(e),
        2 * abs(ratio(n, d).value() * d - n * pow2(1074)) <= d * (pow2(1021) * pow2(e)),
{
    let p = pow2(1074);
    lemma_pow2_pos(1074);
    lemma_pow2_adds(1074, e);
    lemma_pow2_adds(1021, e);
    assert(n * p <= d * pow2(1074 + e)) by (nonlinear_arith)
        requires
            n <= d * pow2(e),
            pow2(1074 + e) == p * pow2(e),
    ;
    lemma_round_error(n * p, d, 1074 + e);
    lemma_signed(false, round_ratio(n * p, d));
    assert((1074 + e - 53) as nat == 1021 + e);
}

/// The share of active tokens, against the exact one.
proof fn lemma_share(active: nat, total: nat)
    requires
        active <= total,
        0 < total <= 0x20_0000_0000_0000,
    ensures
        active_share(active, total).finite(),
        0 <= active_share(active, total).value() <= pow2(1074),
        2 * abs(active_share(active, total).value() * total - active * pow2(1074)) <= total * pow2(
            1021,
        ),
        active == 0 ==> active_share(active, total).value() == 0,
{
    let p = pow2(1074) as int;
    let a = ratio(active, 1);
    let t = ratio(total, 1);
    lemma_pow2_pos(1074);
    law_integer_exact(active);
    law_integer_exact(total);
    assert(total * p > 0) by (nonlinear_arith)
        requires
            total > 0,
            p > 0,
    ;
    assert(0 <= (active * p) * p <= (total * p) * p) by (nonlinear_arith)
        requires
            0 <= active <= total,
            p > 0,
    ;
    assert(active * p >= 0) by (nonlinear_arith)
        requires
            p > 0,
    ;
    lemma_quotient_error(a, t, 1074);
    lemma_units_zero();
    let r = quotient(a, t);
    let v = r.value();
    lemma_signed(false, round_ratio(units(a.magnitude()) * pow2(1074), units(t.magnitude())));
    if active == 0 {
        assert(units(0) == abs(0));
        assert(0 * p == 0);
        let w = t.value();
        assert(0 * w == 0);
        law_quotient_exact(a, t, 0);
    }
    let off = abs(v * total - active * p) as int;
    assert(v * (total * p) - (active * p) * p == (v * total - active * p) * p) by (nonlinear_arith);
    lemma_abs_product(v * total - active * p, p);
    assert(2 * off <= total * pow2(1021)) by (nonlinear_arith)
        requires
            2 * (off * p) <= (total * p) * pow2(1021),
            p > 0,
    {
        assert((total * p) * pow2(1021) == (total * pow2(1021)) * p);
    }
}

/// The formula without its constant term, times the square of one: 54.01 times the
/// share, minus 25.74 times its square, with the constants as they are rounded.
spec fn parabola(share: int) -> int {
    let p = pow2(1074) as int;
    (ratio(5401, 100).value() * share) * p - ratio(2574, 100).value() * (share * share)
}

/// The constants of the formula, in terms of one (`p`) and of two to the power of
/// minus 53 (`g`).
proof fn lemma_constants()
    ensures
        ({
            let p = pow2(1074) as int;
            let g = pow2(1021) as int;
            let c2 = ratio(2574, 100);
            let c1 = ratio(5401, 100);
            let c0 = ratio(574, 100);
            &&& g > 0
            &&& p == 0x20_0000_0000_0000 * g
            &&& c2.finite() && c1.finite() && c0.finite()
            &&& 0 <= c2.value() <= 32 * p
            &&& 0 <= c1.value() <= 64 * p
            &&& 0 <= c0.value() <= 8 * p
            &&& abs(100 * c2.value() - 2574 * p) <= 1600 * g
            &&& abs(100 * c1.value() - 5401 * p) <= 3200 * g
            &&& abs(100 * c0.value() - 574 * p) <= 400 * g
        }),
{
    lemma2_to64();
    lemma2_to64_rest();
    lemma_pow2_pos(1021);
    lemma_pow2_adds(1021, 53);
    lemma_constant(2574, 100, 5);
    lemma_constant(5401, 100, 6);
    lemma_constant(574, 100, 3);
}

/// The formula, against the exact parabola.
proof fn lemma_formula_error(share: Double)
    requires
        share.finite(),
        0 <= share.value() <= pow2(1074),
    ensures
        decode_formula(share).finite(),
        ({
            let p = pow2(1074) as int;
            abs(
                (decode_formula(share).value() - ratio(574, 100).value()) * (p * p) - parabola(
                    share.value(),
                ),
            ) <= (256 * pow2(1021)) * (p * p)
        }),
{
    let p = pow2(1074) as int;
    let g = pow2(1021) as int;
    let c2 = ratio(2574, 100);
    let c1 = ratio(5401, 100);
    let c0 = ratio(574, 100);
    let x = share.value();
    lemma_constants();
    lemma2_to64();
    lemma_pow2_adds(1074, 0);
    lemma_pow2_adds(1074, 5);
    lemma_pow2_adds(1074, 6);
    lemma_pow2_adds(1074, 7);
    lemma_pow2_adds(1074, 8);
    lemma_pow2_adds(1021, 5);
    lemma_pow2_adds(1021, 6);
    lemma_pow2_adds(1021, 7);
    lemma_pow2_adds(1021, 8);
    // The square.
    let square = product(share, share);
    let sv = square.value();
    assert(0 <= x * x <= p * p) by (nonlinear_arith)
        requires
            0 <= x <= p,
    ;
    lemma_product_error(share, share, 1074);
    // The quadratic term.
    let minus = opposite(c2);
    lemma_signed(!c2.negative(), c2.magnitude());
    let quadratic = product(minus, square);
    let c2v = c2.value();
    lemma_abs_product(minus.value(), sv);
    assert(abs(minus.value()) * abs(sv) <= p * (p * 32)) by (nonlinear_arith)
        requires
            abs(minus.value()) <= 32 * p,
            abs(sv) <= p,
    ;
    lemma_product_error(minus, square, 1079);
    let av = quadratic.value();
    // The linear term.
    let linear = product(c1, share);
    let c1v = c1.value();
    lemma_abs_product(c1v, x);
    assert(abs(c1v) * abs(x) <= p * (p * 64)) by (nonlinear_arith)
        requires
            abs(c1v) <= 64 * p,
            abs(x) <= p,
    ;
    lemma_product_error(c1, share, 1080);
    let bv = linear.value();
    // The sums.
    lemma_sum_error(quadratic, linear, 1081);
    lemma_sum_error(sum(quadratic, linear), c0, 1082);
    let y = decode_formula(share).value();
    let c0v = c0.value();
    let sums = y - c0v - av - bv;
    assert(abs(sums) <= 192 * g);
    // What each step contributes.
    assert(minus.value() == -c2v);
    assert(minus.value() * sv == -(c2v * sv)) by (nonlinear_arith)
        requires
            minus.value() == -c2v,
    ;
    lemma_terms(y - c0v, av, bv, c2v, c1v, sv, x, p, g);
}

/// What the steps of the formula contribute to its error, added up.
proof fn lemma_terms(
    y: int,
    av: int,
    bv: int,
    c2v: int,
    c1v: int,
    sv: int,
    x: int,
    p: int,
    g: int,
)
    requires
        p > 0,
        g > 0,
        0 <= c2v <= 32 * p,
        abs(y - av - bv) <= 192 * g,
        2 * abs(av * p + c2v * sv) <= p * (g * 32),
        2 * abs(bv * p - c1v * x) <= p * (g * 64),
        2 * abs(sv * p - x * x) <= p * g,
    ensures
        abs(y * (p * p) - ((c1v * x) * p - c2v * (x * x))) <= (256 * g) * (p * p),
{
    let one = p * p;
    let s = y - av - bv;
    let ea = av * p + c2v * sv;
    let eb = bv * p - c1v * x;
    let es = sv * p - x * x;
    lemma_abs_product(s, one);
    lemma_abs_product(ea, p);
    lemma_abs_product(eb, p);
    lemma_abs_product(c2v, es);
    assert(one > 0) by (nonlinear_arith)
        requires
            p > 0,
            one == p * p,
    ;
    let (us, ua, ub, uq) = (abs(s) as int, abs(ea) as int, abs(eb) as int, abs(es) as int);
    assert(us * one <= 192 * (g * one)) by (nonlinear_arith)
        requires
            us <= 192 * g,
            one > 0,
    ;
    assert(ua * p <= 16 * (g * one)) by (nonlinear_arith)
        requires
            2 * ua <= p * (g * 32),
            p > 0,
            one == p * p,
    ;
    assert(ub * p <= 32 * (g * one)) by (nonlinear_arith)
        requires
            2 * ub <= p * (g * 64),
            p > 0,
            one == p * p,
    ;
    assert(c2v * uq <= 16 * (g * one)) by (nonlinear_arith)
        requires
            2 * uq <= p * g,
            0 <= c2v <= 32 * p,
            0 <= uq,
            one == p * p,
    {
        assert(c2v * uq <= (32 * p) * uq);
        assert((32 * p) * uq == (16 * p) * (2 * uq));
        assert((16 * p) * (2 * uq) <= (16 * p) * (p * g)) by {
            assert(0 <= 16 * p);
        }
    }
    assert(y * one == s * one + av * one + bv * one) by (nonlinear_arith)
        requires
            s == y - av - bv,
    ;
    assert(ea * p == av * one + (c2v * sv) * p) by (nonlinear_arith)
        requires
            ea == av * p + c2v * sv,
            one == p * p,
    ;
    assert(eb * p == bv * one - (c1v * x) * p) by (nonlinear_arith)
        requires
            eb == bv * p - c1v * x,
            one == p * p,
    ;
    assert(c2v * es == (c2v * sv) * p - c2v * (x * x)) by (nonlinear_arith)
        requires
            es == sv * p - x * x,
    ;
    assert((256 * g) * one == 256 * (g * one)) by (nonlinear_arith);
}

/// Up to a share of one, the parabola rises by at least two for each one.
proof fn lemma_parabola_rises(less: int, more: int)
    requires
        0 <= less <= more <= pow2(1074),
    ensures
        ({
            let p = pow2(1074) as int;
            parabola(more) - parabola(less) >= (2 * (more - less)) * (p * p)
        }),
{
    let p = pow2(1074) as int;
    let c1 = ratio(5401, 100).value();
    let c2 = ratio(2574, 100).value();
    lemma_constants();
    let rise = more - less;
    assert((c1 * more) * p - (c1 * less) * p == rise * (c1 * p)) by (nonlinear_arith)
        requires
            rise == more - less,
    ;
    assert(more * more - less * less == rise * (more + less)) by (nonlinear_arith)
        requires
            rise == more - less,
    ;
    assert(c2 * (more * more) - c2 * (less * less) == c2 * (more * more - less * less))
        by (nonlinear_arith);
    let both = more + less;
    assert(c2 * (rise * both) == rise * (c2 * both)) by (nonlinear_arith);
    assert(rise * (c1 * p) - rise * (c2 * both) == rise * (c1 * p - c2 * both))
        by (nonlinear_arith);
    assert(c2 * (more + less) <= (2 * c2) * p) by (nonlinear_arith)
        requires
            0 <= c2,
            more + less <= 2 * p,
    ;
    assert((c1 - 2 * c2) * p >= (2 * p) * p) by (nonlinear_arith)
        requires
            c1 - 2 * c2 >= 2 * p,
            p > 0,
    ;
    assert((c1 - 2 * c2) * p == c1 * p - (2 * c2) * p) by (nonlinear_arith);
    let slope = c1 * p - c2 * (more + less);
    assert(rise * slope >= (2 * rise) * (p * p)) by (nonlinear_arith)
        requires
            rise >= 0,
            slope >= (2 * p) * p,
    {
        assert(rise * slope >= rise * ((2 * p) * p));
        assert(rise * ((2 * p) * p) == (2 * rise) * (p * p));
    }
}

/// More active tokens, a longer decode time: the shares of two numbers of tokens
/// are far enough apart for it.
proof fn lemma_more_takes_longer(fewer: nat, more: nat, total: nat)
    requires
        fewer < more <= total <= 0x1_0000_0000,
    ensures
        decode_formula(active_share(fewer, total)).value() < decode_formula(
            active_share(more, total),
        ).value(),
{
    let p = pow2(1074) as int;
    let g = pow2(1021) as int;
    let t = total as int;
    let x1 = active_share(fewer, total).value();
    let x2 = active_share(more, total).value();
    lemma_constants();
    lemma_share(fewer, total);
    lemma_share(more, total);
    lemma_formula_error(active_share(fewer, total));
    lemma_formula_error(active_share(more, total));
    assert(more * p - fewer * p >= p) by (nonlinear_arith)
        requires
            more >= fewer + 1,
            p > 0,
    ;
    assert(x2 * t - x1 * t >= p - t * g);
    assert(x2 - x1 >= 0x1f_ffff * g) by (nonlinear_arith)
        requires
            x2 * t - x1 * t >= p - t * g,
            p == 0x20_0000_0000_0000 * g,
            0 < t <= 0x1_0000_0000,
            g > 0,
    {
        if x2 - x1 < 0x1f_ffff * g {
            assert((x2 - x1) * t < (0x1f_ffff * g) * t);
            assert((x2 - x1) * t == x2 * t - x1 * t);
            assert(g * t <= g * 0x1_0000_0000);
            assert((0x1f_ffff * g) * t + t * g == 0x20_0000 * (g * t));
        }
    }
    lemma_parabola_rises(x1, x2);
    let y1 = decode_formula(active_share(fewer, total)).value();
    let y2 = decode_formula(active_share(more, total)).value();
    let c0 = ratio(574, 100).value();
    let one = p * p;
    let (q1, q2) = (parabola(x1), parabola(x2));
    assert(y2 > y1) by (nonlinear_arith)
        requires
            (y1 - c0) * one <= q1 + (256 * g) * one,
            (y2 - c0) * one >= q2 - (256 * g) * one,
            q2 - q1 >= (2 * (x2 - x1)) * one,
            x2 - x1 >= 0x1f_ffff * g,
            g > 0,
            one == p * p,
            p > 0,
    {
        assert(one > 0);
        assert((2 * (x2 - x1)) * one >= (0x3f_fffe * g) * one);
        assert((0x3f_fffe * g) * one > (512 * g) * one) by {
            assert(g * one > 0);
            assert((0x3f_fffe * g) * one == 0x3f_fffe * (g * one));
            assert((512 * g) * one == 512 * (g * one));
        }
        assert((256 * g) * one + (256 * g) * one == (512 * g) * one);
        assert((y2 - c0) * one - (y1 - c0) * one == (y2 - y1) * one);
        assert((y2 - y1) * one > 0);
    }
}

/// Without active tokens, the formula is its constant term.
proof fn lemma_idle(total: nat)
    requires
        0 < total <= 0x20_0000_0000_0000,
    ensures
        decode_formula(active_share(0, total)).value() == ratio(574, 100).value(),
{
    let share = active_share(0, total);
    let c2 = ratio(2574, 100);
    let c0 = ratio(574, 100);
    lemma_share(0, total);
    lemma_constants();
    lemma_units_zero();
    assert(units(0) == abs(0));
    assert(0 * pow2(1074) == 0);
    assert(representable(0));
    law_product_exact(share, share, 0);
    lemma_signed(!c2.negative(), c2.magnitude());
    let minus = opposite(c2);
    let (mv, c1v) = (minus.value(), ratio(5401, 100).value());
    assert(mv * 0 == 0 && c1v * 0 == 0);
    law_product_exact(minus, product(share, share), 0);
    law_product_exact(ratio(5401, 100), share, 0);
    let quadratic = product(minus, product(share, share));
    let linear = product(ratio(5401, 100), share);
    law_sum_exact(quadratic, linear);
    assert(units(c0.magnitude()) == abs(c0.value()));
    law_sum_exact(sum(quadratic, linear), c0);
}

/// The polynomial decode time rises with the number of active KV tokens, from
/// 5.74 milliseconds for none to 34.01 for all, up to a picosecond. The bound on the
/// total keeps the shares of neighbouring numbers of active tokens far enough apart
/// for their rounding not to matter.
pub proof fn law_decode_formula_monotone(fewer: nat, more: nat, total: nat)
    requires
        fewer <= more <= total,
        0 < total <= 0x1_0000_0000,
    ensures
        decode_formula(active_share(fewer, total)).finite(),
        decode_formula(active_share(more, total)).finite(),
        ratio(574, 100).value() <= decode_formula(active_share(fewer, total)).value(),
        decode_formula(active_share(fewer, total)).value() <= decode_formula(
            active_share(more, total),
        ).value(),
        1_000_000_000 * decode_formula(active_share(more, total)).value() <= 34_010_000_001 * pow2(
            1074,
        ),
        fewer < more ==> decode_formula(active_share(fewer, total)).value() < decode_formula(
            active_share(more, total),
        ).value(),
        fewer == 0 ==> decode_formula(active_share(fewer, total)).value() == ratio(
            574,
            100,
        ).value(),
{
    let p = pow2(1074) as int;
    let g = pow2(1021) as int;
    let one = p * p;
    lemma_constants();
    lemma_share(fewer, total);
    lemma_share(more, total);
    lemma_formula_error(active_share(fewer, total));
    lemma_formula_error(active_share(more, total));
    lemma_idle(total);
    if 0 < fewer {
        lemma_more_takes_longer(0, fewer, total);
    }
    if fewer < more {
        lemma_more_takes_longer(fewer, more, total);
    }
    let x = active_share(more, total).value();
    let y = decode_formula(active_share(more, total)).value();
    let c2 = ratio(2574, 100).value();
    let c1 = ratio(5401, 100).value();
    let c0 = ratio(574, 100).value();
    lemma_parabola_rises(x, p);
    assert((2 * (p - x)) * one >= 0) by (nonlinear_arith)
        requires
            p >= x,
            one == p * p,
    ;
    assert((c1 * p) * p - c2 * (p * p) == (c1 - c2) * one) by (nonlinear_arith)
        requires
            one == p * p,
    ;
    assert(y <= c0 + c1 - c2 + 256 * g) by (nonlinear_arith)
        requires
            (y - c0) * one <= (c1 - c2) * one + (256 * g) * one,
            one == p * p,
            p > 0,
    {
        assert(one > 0);
        assert((c1 - c2) * one + (256 * g) * one == (c1 - c2 + 256 * g) * one);
    }
}

/// The decode times that a polynomial model predicts rise with the number of
/// active KV tokens, from 5.74 milliseconds for none to 34.01 for all, up to a
/// picosecond. Neither the batch size nor the context length has a part in them.
pub proof fn law_decode_prediction_monotone<
    P: PrefillInterpolator,
    D: DecodeInterpolator,
    C: AicCallback,
>(
    model: PerfModel<P, D, C>,
    batch_size: usize,
    context_length: usize,
    other_batch_size: usize,
    other_context_length: usize,
    fewer: usize,
    more: usize,
    total: usize,
    sooner: Double,
    later: Double,
)
    requires
        model is Polynomial,
        batch_size > 0,
        other_batch_size > 0,
        fewer <= more <= total,
        0 < total <= 0x1_0000_0000,
        model.decode_outcome(batch_size, fewer, context_length, total, sooner),
        model.decode_outcome(other_batch_size, more, other_context_length, total, later),
    ensures
        sooner.finite(),
        later.finite(),
        ratio(574, 100).value() <= sooner.value() <= later.value(),
        1_000_000_000 * later.value() <= 34_010_000_001 * pow2(1074),
        fewer == 0 ==> sooner.value() == ratio(574, 100).value(),
        fewer < more ==> sooner.value() < later.value(),
{
    law_decode_formula_monotone(fewer as nat, more as nat, total as nat);
    lemma_constants();
    lemma_one();
}

} // verus!
