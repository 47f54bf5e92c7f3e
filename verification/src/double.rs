//! Double precision numbers, held as their encodings.
//!
//! A [`Double`] is the 64-bit encoding of a double precision number. Its
//! arithmetic is correctly rounded: an operation on finite numbers gives the
//! double nearest to the exact result, as `rounding` defines it. Results that
//! are not a number all have the one encoding [`NOT_A_NUMBER`].

use vstd::arithmetic::div_mod::lemma_fundamental_div_mod;
use vstd::arithmetic::power2::{
    lemma2_to64, lemma2_to64_rest, lemma_pow2_adds, lemma_pow2_pos, lemma_pow2_strictly_increases,
    lemma_pow2_unfold, pow2,
};
use vstd::math::abs;
use vstd::prelude::*;

use crate::rounding::{
    bit_length, exponent, law_round_exact, law_round_monotone, lemma_nearest_integer,
    lemma_round_bounded, lemma_round_zero, lemma_scale, lemma_significand_at_scale,
    lemma_units_at_scale, lemma_units_increase, lemma_units_zero, located, power_of_two,
    round_located, round_ratio, scale, significand, units, BINADE, INFINITY,
};

verus! {

broadcast use lemma_round_bounded;

/// The sign bit of an encoding.
pub const SIGN: u64 = 0x8000_0000_0000_0000;

/// The encoding of a result that is not a number.
pub const NOT_A_NUMBER: u64 = 0x7ff8_0000_0000_0000;

/// A double precision number.
#[derive(Clone, Copy, Debug)]
pub struct Double {
    /// The encoding: sign bit, eleven exponent bits, fifty-two fraction bits.
    pub bits: u64,
}

/// The double with the given sign and magnitude.
pub open spec fn signed(negative: bool, magnitude: nat) -> Double {
    Double {
        bits: (magnitude + if negative {
            SIGN as nat
        } else {
            0
        }) as u64,
    }
}

/// The result that is not a number.
pub open spec fn not_a_number() -> Double {
    Double { bits: NOT_A_NUMBER }
}

/// The double nearest to the ratio of two naturals.
pub open spec fn ratio(n: nat, d: nat) -> Double {
    signed(false, round_ratio(n * pow2(1074), d))
}

/// The correctly rounded sum.
pub open spec fn sum(a: Double, b: Double) -> Double {
    if a.nan() || b.nan() || (a.infinite() && b.infinite() && a.negative() != b.negative()) {
        not_a_number()
    } else if a.infinite() {
        a
    } else if b.infinite() {
        b
    } else {
        let exact = a.value() + b.value();
        if exact == 0 {
            signed(a.negative() && b.negative(), 0)
        } else if exact < 0 {
            signed(true, round_ratio((-exact) as nat, 1))
        } else {
            signed(false, round_ratio(exact as nat, 1))
        }
    }
}

/// The number with the opposite sign.
pub open spec fn opposite(a: Double) -> Double {
    signed(!a.negative(), a.magnitude())
}

/// The correctly rounded difference.
pub open spec fn difference(a: Double, b: Double) -> Double {
    sum(a, opposite(b))
}

/// The correctly rounded product.
pub open spec fn product(a: Double, b: Double) -> Double {
    let negative = a.negative() != b.negative();
    if a.nan() || b.nan() || (a.infinite() && b.magnitude() == 0) || (a.magnitude() == 0
        && b.infinite()) {
        not_a_number()
    } else if a.infinite() || b.infinite() {
        signed(negative, INFINITY as nat)
    } else {
        signed(negative, round_ratio(units(a.magnitude()) * units(b.magnitude()), pow2(1074)))
    }
}

/// The correctly rounded quotient.
pub open spec fn quotient(a: Double, b: Double) -> Double {
    let negative = a.negative() != b.negative();
    if a.nan() || b.nan() || (a.infinite() && b.infinite()) || (a.magnitude() == 0
        && b.magnitude() == 0) {
        not_a_number()
    } else if a.infinite() || b.magnitude() == 0 {
        signed(negative, INFINITY as nat)
    } else if b.infinite() {
        signed(negative, 0)
    } else {
        signed(negative, round_ratio(units(a.magnitude()) * pow2(1074), units(b.magnitude())))
    }
}

/// The larger of two numbers: `b` where they are equal, and the other one where
/// one is not a number.
pub open spec fn larger(a: Double, b: Double) -> Double {
    if b.nan() {
        a
    } else if a.nan() || a.value() <= b.value() {
        b
    } else {
        a
    }
}

/// What a number is made of, read back from its sign and its magnitude.
pub proof fn lemma_signed(negative: bool, magnitude: nat)
    requires
        magnitude <= INFINITY,
    ensures
        signed(negative, magnitude).negative() == negative,
        signed(negative, magnitude).magnitude() == magnitude,
        signed(negative, magnitude).value() == if negative {
            -(units(magnitude) as int)
        } else {
            units(magnitude) as int
        },
{
}

/// Integers of at most 64 bits are never rounded to infinity.
pub proof fn lemma_integer_finite(n: nat)
    requires
        n <= u64::MAX,
    ensures
        ratio(n, 1).finite(),
        !ratio(n, 1).negative(),
        ratio(n, 1).value() >= 0,
        ratio(n, 1).magnitude() == round_ratio(n * pow2(1074), 1),
{
    let m: nat = 1087 * BINADE as nat;
    let limit = 0x1_0000_0000_0000_0000 * pow2(1074);
    assert(exponent(m) == 1086);
    assert(significand(m) == BINADE);
    lemma2_to64();
    lemma2_to64_rest();
    lemma_pow2_adds(52, 1086);
    lemma_pow2_adds(64, 1074);
    assert(units(m) * 1 == limit);
    law_round_exact(m, 1);
    assert((n * pow2(1074)) * 1 <= limit * 1) by (nonlinear_arith)
        requires
            n <= 0x1_0000_0000_0000_0000,
            limit == 0x1_0000_0000_0000_0000 * pow2(1074),
    ;
    law_round_monotone(n * pow2(1074), 1, limit, 1);
    lemma_signed(false, round_ratio(n * pow2(1074), 1));
}

/// Integers up to two to the power of 53 are represented exactly.
pub proof fn law_integer_exact(n: nat)
    requires
        n <= 0x20_0000_0000_0000,
    ensures
        ratio(n, 1).finite(),
        !ratio(n, 1).negative(),
        ratio(n, 1).value() == n * pow2(1074),
{
    let whole = n * pow2(1074);
    lemma_integer_finite(n);
    lemma2_to64_rest();
    if n == 0x20_0000_0000_0000 {
        let m: nat = 1076 * BINADE as nat;
        assert(exponent(m) == 1075);
        assert(significand(m) == BINADE);
        lemma_pow2_unfold(1075);
        assert(units(m) * 1 == whole);
        law_round_exact(m, 1);
    } else {
        let k = scale(whole, 1);
        lemma_scale(whole, 1);
        lemma_pow2_pos(1074);
        lemma_pow2_adds(53, 1074);
        assert(whole < pow2(1127)) by (nonlinear_arith)
            requires
                whole == n * pow2(1074),
                n < 0x20_0000_0000_0000,
                pow2(1127) == 0x20_0000_0000_0000 * pow2(1074),
                pow2(1074) > 0,
        ;
        if k > 1074 {
            if k > 1075 {
                lemma_pow2_strictly_increases(1127, (k + 52) as nat);
            }
            assert(false);
        }
        let q = n * pow2((1074 - k) as nat);
        lemma_pow2_adds((1074 - k) as nat, k);
        lemma_pow2_pos(k);
        assert(whole == q * pow2(k)) by (nonlinear_arith)
            requires
                whole == n * pow2(1074),
                pow2(1074) == pow2((1074 - k) as nat) * pow2(k),
                q == n * pow2((1074 - k) as nat),
        ;
        assert(1 * pow2(k) == pow2(k));
        lemma_nearest_integer(whole, pow2(k), q, 0);
        lemma_significand_at_scale(whole, 1);
        reveal(round_ratio);
        lemma_units_at_scale(k, q);
    }
}

/// One is represented exactly.
pub proof fn lemma_one()
    ensures
        ratio(1, 1) == (Double { bits: 0x3ff0_0000_0000_0000 }),
        ratio(1, 1).finite(),
        !ratio(1, 1).negative(),
        ratio(1, 1).value() == pow2(1074),
{
    let m: nat = 1023 * BINADE as nat;
    assert(exponent(m) == 1022);
    assert(significand(m) == BINADE);
    lemma2_to64_rest();
    lemma_pow2_adds(52, 1022);
    assert(units(m) * 1 == 1 * pow2(1074));
    law_round_exact(m, 1);
}

/// Whether a number of units, of either sign, is a finite double.
pub open spec fn representable(v: int) -> bool {
    exists|magnitude: nat| magnitude < INFINITY && #[trigger] units(magnitude) == abs(v)
}

/// A sum that is a double is not rounded.
pub proof fn law_sum_exact(a: Double, b: Double)
    requires
        a.finite(),
        b.finite(),
        representable(a.value() + b.value()),
    ensures
        sum(a, b).finite(),
        sum(a, b).value() == a.value() + b.value(),
{
    let exact = a.value() + b.value();
    let m = choose|magnitude: nat|
        magnitude < INFINITY && #[trigger] units(magnitude) == abs(exact);
    law_round_exact(m, 1);
    lemma_units_zero();
    lemma_signed(exact < 0, m);
    lemma_signed(a.negative() && b.negative(), 0);
}

/// A difference that is a double is not rounded.
pub proof fn law_difference_exact(a: Double, b: Double)
    requires
        a.finite(),
        b.finite(),
        representable(a.value() - b.value()),
    ensures
        difference(a, b).finite(),
        difference(a, b).value() == a.value() - b.value(),
{
    lemma_signed(!b.negative(), b.magnitude());
    law_sum_exact(a, opposite(b));
}

/// The size and the sign of a product.
pub proof fn lemma_abs_product(x: int, y: int)
    ensures
        abs(x * y) == abs(x) * abs(y),
        x * y > 0 ==> (x > 0) == (y > 0),
        x * y < 0 ==> (x > 0) != (y > 0),
        x * y == 0 <==> x == 0 || y == 0,
{
    assert(abs(x * y) == abs(x) * abs(y) && (x * y > 0 ==> (x > 0) == (y > 0)) && (x * y < 0 ==> (x
        > 0) != (y > 0)) && (x * y == 0 <==> x == 0 || y == 0)) by (nonlinear_arith);
}

/// A product that is a double is not rounded.
pub proof fn law_product_exact(a: Double, b: Double, v: int)
    requires
        a.finite(),
        b.finite(),
        representable(v),
        a.value() * b.value() == v * pow2(1074),
    ensures
        product(a, b).finite(),
        product(a, b).value() == v,
{
    let p = pow2(1074);
    let m = choose|magnitude: nat| magnitude < INFINITY && #[trigger] units(magnitude) == abs(v);
    lemma_pow2_pos(1074);
    lemma_units_zero();
    law_round_exact(m, p);
    lemma_abs_product(a.value(), b.value());
    lemma_abs_product(v, p as int);
    lemma_signed(a.negative() != b.negative(), m);
}

/// A quotient that is a double is not rounded.
pub proof fn law_quotient_exact(a: Double, b: Double, v: int)
    requires
        a.finite(),
        b.finite(),
        b.value() != 0,
        representable(v),
        a.value() * pow2(1074) == v * b.value(),
    ensures
        quotient(a, b).finite(),
        quotient(a, b).value() == v,
{
    let p = pow2(1074);
    let m = choose|magnitude: nat| magnitude < INFINITY && #[trigger] units(magnitude) == abs(v);
    lemma_pow2_pos(1074);
    lemma_units_zero();
    law_round_exact(m, units(b.magnitude()));
    lemma_abs_product(a.value(), p as int);
    lemma_abs_product(v, b.value());
    lemma_signed(a.negative() != b.negative(), m);
}

/// Splits a finite magnitude into its significand and its exponent.
fn split(magnitude: u64) -> (parts: (u64, u64))
    requires
        magnitude < INFINITY,
    ensures
        parts.0 == significand(magnitude as nat),
        parts.1 == exponent(magnitude as nat),
        units(magnitude as nat) == parts.0 * pow2(parts.1 as nat),
        parts.0 < 0x20_0000_0000_0000,
        parts.1 <= 2045,
        parts.0 == 0 <==> magnitude == 0,
{
    if magnitude < BINADE {
        (magnitude, 0)
    } else {
        let e: u64 = magnitude / BINADE - 1;
        (magnitude - e * BINADE, e)
    }
}

/// Builds a number from its sign and its magnitude.
fn build(negative: bool, magnitude: u64) -> (r: Double)
    requires
        magnitude <= INFINITY,
    ensures
        r == signed(negative, magnitude as nat),
{
    if negative {
        Double { bits: magnitude + SIGN }
    } else {
        Double { bits: magnitude }
    }
}

/// The magnitude of a product of two finite magnitudes.
fn multiply(a: u64, b: u64) -> (magnitude: u64)
    requires
        a < INFINITY,
        b < INFINITY,
    ensures
        magnitude == round_ratio(units(a as nat) * units(b as nat), pow2(1074)),
        magnitude <= INFINITY,
{
    let (sa, ea) = split(a);
    let (sb, eb) = split(b);
    let ghost n = units(a as nat) * units(b as nat);
    let ghost d = pow2(1074);
    let ghost up = (ea + eb) as nat;
    proof {
        assert(sa * sb < 0x8000_0000_0000_0000_0000_0000_0000_0000) by (nonlinear_arith)
            requires
                sa < 0x20_0000_0000_0000,
                sb < 0x20_0000_0000_0000,
        ;
    }
    let sig: u128 = sa as u128 * sb as u128;
    proof {
        lemma_pow2_pos(1074);
        lemma_pow2_pos(up);
        lemma_pow2_adds(ea as nat, eb as nat);
        assert(n * pow2(1074) == sig * (pow2(up) * d)) by (nonlinear_arith)
            requires
                n == (sa * pow2(ea as nat)) * (sb * pow2(eb as nat)),
                pow2(up) == pow2(ea as nat) * pow2(eb as nat),
                d == pow2(1074),
                sig == sa * sb,
        ;
        lemma_next_multiple(sig as nat, pow2(up), d);
    }
    round_located(
        sig,
        (ea + eb) as i64 - 1074,
        false,
        Ghost(n),
        Ghost(d),
        Ghost(up),
        Ghost(1074),
    )
}

/// The next multiple of a positive number is larger.
proof fn lemma_next_multiple(sig: nat, p: nat, d: nat)
    requires
        p > 0,
        d > 0,
    ensures
        sig * (p * d) < (sig + 1) * (p * d),
{
    assert(p * d > 0) by (nonlinear_arith)
        requires
            p > 0,
            d > 0,
    ;
    assert((sig + 1) * (p * d) == sig * (p * d) + p * d) by (nonlinear_arith);
}

/// The magnitude of the ratio of `sa` times two to the power of `ea` and `sb`
/// times two to the power of `eb`.
fn divide(sa: u64, ea: u64, sb: u64, eb: u64) -> (magnitude: u64)
    requires
        sb > 0,
        ea <= 2045,
        eb <= 2045,
    ensures
        magnitude == round_ratio(
            (sa * pow2(ea as nat)) as nat * pow2(1074),
            (sb * pow2(eb as nat)) as nat,
        ),
        magnitude <= INFINITY,
{
    let ghost n = (sa * pow2(ea as nat)) as nat * pow2(1074);
    let ghost d = (sb * pow2(eb as nat)) as nat;
    proof {
        lemma_pow2_pos(ea as nat);
        lemma_pow2_pos(eb as nat);
        lemma_pow2_pos(1074);
        assert(d > 0) by (nonlinear_arith)
            requires
                d == sb * pow2(eb as nat),
                sb > 0,
                pow2(eb as nat) > 0,
        ;
    }
    // Fill the numerator up to 127 bits, so that the quotient has enough.
    let fill: u64 = if sa == 0 {
        0
    } else {
        127 - bit_length(sa as u128)
    };
    proof {
        lemma_filled(sa as nat, fill as nat);
    }
    let whole: u128 = sa as u128 * power_of_two(fill);
    let sig: u128 = whole / (sb as u128);
    let sticky: bool = whole % (sb as u128) != 0;
    let ghost up = (ea + 1074) as nat;
    let ghost down = (fill + eb) as nat;
    proof {
        let rest = (whole % (sb as u128)) as nat;
        lemma_fundamental_div_mod(whole as int, sb as int);
        lemma_pow2_adds(ea as nat, 1074);
        lemma_pow2_adds(fill as nat, eb as nat);
        let u = pow2(up) * d;
        let p = pow2(up) * pow2(eb as nat);
        lemma_pow2_pos(up);
        assert(p > 0) by (nonlinear_arith)
            requires
                p == pow2(up) * pow2(eb as nat),
                pow2(up) > 0,
                pow2(eb as nat) > 0,
        ;
        assert(u == sb * p) by (nonlinear_arith)
            requires
                u == pow2(up) * d,
                d == sb * pow2(eb as nat),
                p == pow2(up) * pow2(eb as nat),
        ;
        assert(n * pow2(down) == whole * p) by (nonlinear_arith)
            requires
                n == (sa * pow2(ea as nat)) * pow2(1074),
                pow2(up) == pow2(ea as nat) * pow2(1074),
                pow2(down) == pow2(fill as nat) * pow2(eb as nat),
                whole == sa * pow2(fill as nat),
                p == pow2(up) * pow2(eb as nat),
        ;
        assert(whole * p == sig * u + rest * p) by (nonlinear_arith)
            requires
                whole == sb * sig + rest,
                u == sb * p,
        ;
        assert((sig + 1) * u == sig * u + u) by (nonlinear_arith);
        assert(rest * p < u) by (nonlinear_arith)
            requires
                rest < sb,
                u == sb * p,
                p > 0,
        ;
        assert((rest * p == 0) == (rest == 0)) by (nonlinear_arith)
            requires
                p > 0,
        ;
        assert(located(n, d, sig as nat, up, down, sticky));
        if sa > 0 {
            assert(sig >= 0x20_0000_0000_0000) by (nonlinear_arith)
                requires
                    whole >= 0x4000_0000_0000_0000_0000_0000_0000_0000,
                    whole == sb * sig + rest,
                    rest < sb,
                    sb <= 0xffff_ffff_ffff_ffff,
            ;
        } else {
            assert(whole == 0) by (nonlinear_arith)
                requires
                    whole == sa * pow2(fill as nat),
                    sa == 0,
            ;
            assert(rest == 0);
        }
        assert(sig <= whole) by (nonlinear_arith)
            requires
                whole == sb * sig + rest,
                sb >= 1,
        ;
    }
    round_located(
        sig,
        (ea + 1074) as i64 - (fill + eb) as i64,
        sticky,
        Ghost(n),
        Ghost(d),
        Ghost(up),
        Ghost(down),
    )
}

/// A positive integer that is shifted to 127 bits lies between the powers of
/// two 126 and 127.
proof fn lemma_filled(sa: nat, fill: nat)
    requires
        fill <= 126,
        sa == 0 ==> fill == 0,
        sa > 0 ==> pow2((126 - fill) as nat) <= sa < pow2((127 - fill) as nat),
    ensures
        sa * pow2(fill) < 0x8000_0000_0000_0000_0000_0000_0000_0000,
        sa > 0 ==> sa * pow2(fill) >= 0x4000_0000_0000_0000_0000_0000_0000_0000,
        pow2(fill) <= u128::MAX,
{
    lemma2_to64();
    lemma2_to64_rest();
    lemma_pow2_pos(fill);
    lemma_pow2_adds(63, 63);
    lemma_pow2_adds(63, 64);
    assert(pow2(126) == 0x4000_0000_0000_0000_0000_0000_0000_0000) by {
        assert(0x8000_0000_0000_0000 * 0x8000_0000_0000_0000
            == 0x4000_0000_0000_0000_0000_0000_0000_0000);
    }
    assert(pow2(127) == 0x8000_0000_0000_0000_0000_0000_0000_0000) by {
        assert(0x8000_0000_0000_0000 * 0x1_0000_0000_0000_0000
            == 0x8000_0000_0000_0000_0000_0000_0000_0000);
    }
    if fill < 127 {
        lemma_pow2_strictly_increases(fill, 127);
    }
    if sa > 0 {
        lemma_pow2_adds((126 - fill) as nat, fill);
        lemma_pow2_adds((127 - fill) as nat, fill);
        assert(sa * pow2(fill) < pow2((127 - fill) as nat) * pow2(fill)) by (nonlinear_arith)
            requires
                sa < pow2((127 - fill) as nat),
                pow2(fill) > 0,
        ;
        assert(sa * pow2(fill) >= pow2((126 - fill) as nat) * pow2(fill)) by (nonlinear_arith)
            requires
                sa >= pow2((126 - fill) as nat),
        ;
    } else {
        assert(sa * pow2(fill) == 0) by (nonlinear_arith)
            requires
                sa == 0,
        ;
    }
}

/// Shifts a significand by `60 - gap` bits: the whole part of the result, and
/// whether a part of it was cut off.
fn align(sig: u64, gap: u64) -> (aligned: (u128, bool))
    requires
        sig < 0x20_0000_0000_0000,
    ensures
        aligned.0 * pow2(gap as nat) <= sig * 0x1000_0000_0000_0000 < (aligned.0 + 1) * pow2(
            gap as nat,
        ),
        aligned.1 == (aligned.0 * pow2(gap as nat) != sig * 0x1000_0000_0000_0000),
        aligned.0 < 0x2_0000_0000_0000_0000_0000_0000_0000,
        aligned.1 ==> aligned.0 < 0x20_0000_0000_0000,
{
    proof {
        lemma2_to64();
        lemma2_to64_rest();
        lemma_pow2_pos(gap as nat);
    }
    let ghost p = pow2(gap as nat);
    if gap <= 60 {
        let lift: u64 = 60 - gap;
        proof {
            lemma_pow2_adds(lift as nat, gap as nat);
            if lift < 60 {
                lemma_pow2_strictly_increases(lift as nat, 60);
            }
            assert(sig * pow2(lift as nat) < 0x2_0000_0000_0000_0000_0000_0000_0000)
                by (nonlinear_arith)
                requires
                    sig < 0x20_0000_0000_0000,
                    pow2(lift as nat) <= 0x1000_0000_0000_0000,
            ;
        }
        let whole: u128 = sig as u128 * power_of_two(lift);
        proof {
            assert(whole * p == sig * 0x1000_0000_0000_0000) by (nonlinear_arith)
                requires
                    whole == sig * pow2(lift as nat),
                    pow2(lift as nat) * p == 0x1000_0000_0000_0000,
            ;
            assert((whole + 1) * p == whole * p + p) by (nonlinear_arith);
        }
        (whole, false)
    } else {
        let drop: u64 = gap - 60;
        proof {
            lemma_pow2_adds(60, drop as nat);
            lemma_pow2_pos(drop as nat);
        }
        if drop >= 64 {
            proof {
                if drop > 64 {
                    lemma_pow2_strictly_increases(64, drop as nat);
                }
                assert(sig * 0x1000_0000_0000_0000 < p) by (nonlinear_arith)
                    requires
                        sig < 0x20_0000_0000_0000,
                        p == 0x1000_0000_0000_0000 * pow2(drop as nat),
                        pow2(drop as nat) >= 0x1_0000_0000_0000_0000,
                ;
                assert(0 * p == 0 && (0 + 1) * p == p) by (nonlinear_arith);
            }
            (0, sig != 0)
        } else {
            let unit: u128 = power_of_two(drop);
            let whole: u128 = sig as u128 / unit;
            let rest: u128 = sig as u128 % unit;
            proof {
                lemma_fundamental_div_mod(sig as int, unit as int);
                assert(whole * p + rest * 0x1000_0000_0000_0000 == sig * 0x1000_0000_0000_0000)
                    by (nonlinear_arith)
                    requires
                        sig == unit * whole + rest,
                        p == 0x1000_0000_0000_0000 * unit,
                ;
                assert((whole + 1) * p == whole * p + p) by (nonlinear_arith);
                assert(whole <= sig) by (nonlinear_arith)
                    requires
                        sig == unit * whole + rest,
                        unit >= 1,
                        rest >= 0,
                        whole >= 0,
                ;
            }
            (whole, rest != 0)
        }
    }
}

/// The magnitude of the sum or the difference of two finite magnitudes, the
/// first of which is the larger one.
fn combine(big: u64, small: u64, subtract: bool) -> (magnitude: u64)
    requires
        small <= big < INFINITY,
        subtract ==> small < big,
    ensures
        magnitude == round_ratio(
            if subtract {
                (units(big as nat) - units(small as nat)) as nat
            } else {
                units(big as nat) + units(small as nat)
            },
            1,
        ),
        magnitude <= INFINITY,
{
    let (sb, eb) = split(big);
    let (ss, es) = split(small);
    let gap: u64 = eb - es;
    let whole: u128 = sb as u128 * 0x1000_0000_0000_0000;
    let (part, cut) = align(ss, gap);
    let ghost ub = units(big as nat);
    let ghost us = units(small as nat);
    let ghost p = pow2(eb as nat);
    let ghost v = us * 0x1000_0000_0000_0000;
    proof {
        if small < big {
            lemma_units_increase(small as nat, big as nat);
        }
        lemma2_to64_rest();
        lemma_pow2_pos(eb as nat);
        lemma_pow2_pos(es as nat);
        lemma_pow2_adds(gap as nat, es as nat);
        let g = pow2(gap as nat);
        let w = pow2(es as nat);
        let aligned = ss * 0x1000_0000_0000_0000;
        assert(v == aligned * w) by (nonlinear_arith)
            requires
                v == us * 0x1000_0000_0000_0000,
                us == ss * w,
                aligned == ss * 0x1000_0000_0000_0000,
        ;
        // The smaller number lies between two multiples of the larger one's step.
        assert(part * p <= v < (part + 1) * p && (part * p == v) == (part * g == aligned))
            by (nonlinear_arith)
            requires
                part * g <= aligned < (part + 1) * g,
                v == aligned * w,
                p == g * w,
                w > 0,
        {
            assert(v == aligned * w);
            assert(part * p == (part * g) * w);
            assert((part + 1) * p == ((part + 1) * g) * w);
        }
        assert(ub * 0x1000_0000_0000_0000 == whole * p) by (nonlinear_arith)
            requires
                ub == sb * p,
                whole == sb * 0x1000_0000_0000_0000,
        ;
        assert((part + 1) * p == part * p + p) by (nonlinear_arith);
    }
    if subtract {
        let ghost n = (ub - us) as nat;
        proof {
            assert(n * 0x1000_0000_0000_0000 == whole * p - v);
            assert(whole > part || (whole == part && !cut)) by (nonlinear_arith)
                requires
                    whole * p - v > 0,
                    part * p <= v,
                    p > 0,
            ;
            assert(whole > part);
        }
        let sig: u128 = if cut {
            whole - part - 1
        } else {
            whole - part
        };
        proof {
            assert(sig * p == whole * p - part * p - if cut { p as int } else { 0 })
                by (nonlinear_arith)
                requires
                    sig == whole - part - if cut { 1int } else { 0 },
            ;
            assert((sig + 1) * p == sig * p + p) by (nonlinear_arith);
            assert(pow2(eb as nat) * 1 == p);
            assert(located(n, 1, sig as nat, eb as nat, 60, cut));
        }
        round_located(sig, eb as i64 - 60, cut, Ghost(n), Ghost(1), Ghost(eb as nat), Ghost(60))
    } else {
        let ghost n = ub + us;
        let sig: u128 = whole + part;
        proof {
            assert(sig * p == whole * p + part * p) by (nonlinear_arith)
                requires
                    sig == whole + part,
            ;
            assert((sig + 1) * p == sig * p + p) by (nonlinear_arith);
            assert(pow2(eb as nat) * 1 == p);
            assert(located(n, 1, sig as nat, eb as nat, 60, cut));
        }
        round_located(sig, eb as i64 - 60, cut, Ghost(n), Ghost(1), Ghost(eb as nat), Ghost(60))
    }
}

impl Double {
    /// The encoding without its sign.
    pub open spec fn magnitude(self) -> nat {
        (self.bits % SIGN) as nat
    }

    /// Whether the sign bit is set.
    pub open spec fn negative(self) -> bool {
        self.bits >= SIGN
    }

    /// Whether this is not a number.
    pub open spec fn nan(self) -> bool {
        self.magnitude() > INFINITY
    }

    /// Whether this is one of the two infinities.
    pub open spec fn infinite(self) -> bool {
        self.magnitude() == INFINITY
    }

    /// Whether this is a finite number.
    pub open spec fn finite(self) -> bool {
        self.magnitude() < INFINITY
    }

    /// The number in units. An infinity counts as the power of two that is one
    /// binade above the largest finite numbers.
    pub open spec fn value(self) -> int {
        if self.negative() {
            -(units(self.magnitude()) as int)
        } else {
            units(self.magnitude()) as int
        }
    }

    /// Numbers are ordered as their signed magnitudes are.
    pub proof fn lemma_value_order(self, other: Double)
        ensures
            self.value() <= other.value() <==> ({
                let a = if self.negative() {
                    -(self.magnitude() as int)
                } else {
                    self.magnitude() as int
                };
                let b = if other.negative() {
                    -(other.magnitude() as int)
                } else {
                    other.magnitude() as int
                };
                a <= b
            }),
    {
        let a = self.magnitude();
        let b = other.magnitude();
        lemma_units_zero();
        if a < b {
            lemma_units_increase(a, b);
        }
        if b < a {
            lemma_units_increase(b, a);
        }
        if 0 < a {
            lemma_units_increase(0, a);
        }
        if 0 < b {
            lemma_units_increase(0, b);
        }
    }

    /// Whether this is a finite number.
    pub fn is_finite(self) -> (finite: bool)
        ensures
            finite == self.finite(),
    {
        self.bits % SIGN < INFINITY
    }

    /// Whether this is not a number.
    pub fn is_nan(self) -> (nan: bool)
        ensures
            nan == self.nan(),
    {
        self.bits % SIGN > INFINITY
    }

    /// Whether this is a number that is at most `other`.
    pub fn at_most(self, other: Double) -> (holds: bool)
        ensures
            holds == (!self.nan() && !other.nan() && self.value() <= other.value()),
    {
        proof {
            self.lemma_value_order(other);
        }
        let a: u64 = self.bits % SIGN;
        let b: u64 = other.bits % SIGN;
        if a > INFINITY || b > INFINITY {
            false
        } else if self.bits >= SIGN {
            if other.bits >= SIGN {
                b <= a
            } else {
                true
            }
        } else if other.bits >= SIGN {
            a == 0 && b == 0
        } else {
            a <= b
        }
    }

    /// The larger of two numbers; the other one where one is not a number.
    pub fn max(self, other: Double) -> (m: Double)
        ensures
            m == larger(self, other),
    {
        if other.is_nan() {
            self
        } else if self.is_nan() || self.at_most(other) {
            other
        } else {
            self
        }
    }

    /// The number with the opposite sign.
    pub fn negate(self) -> (r: Double)
        ensures
            r == opposite(self),
    {
        let magnitude: u64 = self.bits % SIGN;
        if self.bits >= SIGN {
            Double { bits: magnitude }
        } else {
            Double { bits: magnitude + SIGN }
        }
    }

    /// Positive zero.
    pub fn zero() -> (r: Double)
        ensures
            r == signed(false, 0),
    {
        Double { bits: 0 }
    }

    /// The double nearest to `n / d`.
    pub fn from_ratio(n: u64, d: u64) -> (r: Double)
        requires
            d > 0,
        ensures
            r == ratio(n as nat, d as nat),
    {
        proof {
            lemma2_to64();
            assert(n * pow2(0) == n && d * pow2(0) == d);
        }
        build(false, divide(n, 0, d, 0))
    }

    /// The double nearest to an integer.
    pub fn from_usize(n: usize) -> (r: Double)
        ensures
            r == ratio(n as nat, 1),
    {
        Double::from_ratio(n as u64, 1)
    }

    /// The correctly rounded sum.
    pub fn plus(self, other: Double) -> (r: Double)
        ensures
            r == sum(self, other),
    {
        let a: u64 = self.bits % SIGN;
        let b: u64 = other.bits % SIGN;
        let a_negative: bool = self.bits >= SIGN;
        let b_negative: bool = other.bits >= SIGN;
        if a > INFINITY || b > INFINITY || (a == INFINITY && b == INFINITY && a_negative
            != b_negative) {
            return Double { bits: NOT_A_NUMBER };
        }
        if a == INFINITY {
            return self;
        }
        if b == INFINITY {
            return other;
        }
        proof {
            lemma_units_zero();
            if a < b {
                lemma_units_increase(a as nat, b as nat);
            } else if b < a {
                lemma_units_increase(b as nat, a as nat);
            }
            if 0 < a {
                lemma_units_increase(0, a as nat);
            }
            if 0 < b {
                lemma_units_increase(0, b as nat);
            }
        }
        if a_negative == b_negative {
            let magnitude: u64 = if a >= b {
                combine(a, b, false)
            } else {
                combine(b, a, false)
            };
            proof {
                if a == 0 && b == 0 {
                    lemma_round_zero(1);
                }
            }
            build(a_negative, magnitude)
        } else if a == b {
            Double { bits: 0 }
        } else if a > b {
            build(a_negative, combine(a, b, true))
        } else {
            build(b_negative, combine(b, a, true))
        }
    }

    /// The correctly rounded difference.
    pub fn minus(self, other: Double) -> (r: Double)
        ensures
            r == difference(self, other),
    {
        self.plus(other.negate())
    }

    /// The correctly rounded product.
    pub fn times(self, other: Double) -> (r: Double)
        ensures
            r == product(self, other),
    {
        let a: u64 = self.bits % SIGN;
        let b: u64 = other.bits % SIGN;
        let negative: bool = (self.bits >= SIGN) != (other.bits >= SIGN);
        if a > INFINITY || b > INFINITY || (a == INFINITY && b == 0) || (a == 0 && b == INFINITY) {
            Double { bits: NOT_A_NUMBER }
        } else if a == INFINITY || b == INFINITY {
            build(negative, INFINITY)
        } else {
            build(negative, multiply(a, b))
        }
    }

    /// The correctly rounded quotient.
    pub fn over(self, other: Double) -> (r: Double)
        ensures
            r == quotient(self, other),
    {
        let a: u64 = self.bits % SIGN;
        let b: u64 = other.bits % SIGN;
        let negative: bool = (self.bits >= SIGN) != (other.bits >= SIGN);
        if a > INFINITY || b > INFINITY || (a == INFINITY && b == INFINITY) || (a == 0 && b == 0) {
            Double { bits: NOT_A_NUMBER }
        } else if a == INFINITY || b == 0 {
            build(negative, INFINITY)
        } else if b == INFINITY {
            build(negative, 0)
        } else {
            let (sa, ea) = split(a);
            let (sb, eb) = split(b);
            build(negative, divide(sa, ea, sb, eb))
        }
    }
}

} // verus!
