//! Rounding of exact quantities to double precision.
//!
//! Every finite double is a whole number of *units*, a unit being the smallest
//! positive double (two to the power of minus 1074). The encoding of a
//! non-negative double, its *magnitude*, grows with the number of units, so a
//! magnitude is a natural number up to [`INFINITY`]. Rounding takes an exact
//! non-negative ratio, counted in units, to the magnitude of the nearest
//! double, with ties going to the even significand.

use vstd::arithmetic::div_mod::{lemma_fundamental_div_mod, lemma_fundamental_div_mod_converse};
use vstd::arithmetic::power2::{
    lemma2_to64, lemma2_to64_rest, lemma_pow2_adds, lemma_pow2_pos, lemma_pow2_strictly_increases,
    lemma_pow2_unfold, pow2,
};
use vstd::prelude::*;

verus! {

/// The magnitude step between two neighbouring binary exponents: the number of
/// significands of one exponent.
pub const BINADE: u64 = 0x0010_0000_0000_0000;

/// The magnitude of infinity, one above the largest finite magnitude.
pub const INFINITY: u64 = 0x7ff0_0000_0000_0000;

/// The power of two by which the units of a magnitude are scaled.
pub open spec fn exponent(magnitude: nat) -> nat {
    if magnitude < BINADE {
        0
    } else {
        (magnitude / BINADE as nat - 1) as nat
    }
}

/// The significand of a magnitude, the implicit leading bit included.
pub open spec fn significand(magnitude: nat) -> nat {
    (magnitude - exponent(magnitude) * BINADE) as nat
}

/// How many units a magnitude stands for. At [`INFINITY`] this is the first
/// number of units that lies beyond the finite doubles' exponents.
pub open spec fn units(magnitude: nat) -> nat {
    significand(magnitude) * pow2(exponent(magnitude))
}

/// The least `k` such that `n / d` is below two to the power of `k + 53`.
pub open spec fn scale(n: nat, d: nat) -> nat
    decreases n - d,
{
    if d == 0 || n < d * 0x20_0000_0000_0000 {
        0
    } else {
        scale(n, 2 * d) + 1
    }
}

/// The integer nearest to `n / d`, the even one of two that are equally near.
pub open spec fn nearest_integer(n: nat, d: nat) -> nat {
    let q = n / d;
    let r = n % d;
    if 2 * r > d || (2 * r == d && q % 2 == 1) {
        q + 1
    } else {
        q
    }
}

/// The magnitude nearest to `n / d` units, if there were no largest finite
/// double: the nearest multiple of the spacing of doubles around `n / d`.
pub open spec fn round_unbounded(n: nat, d: nat) -> nat {
    let k = scale(n, d);
    k * BINADE as nat + nearest_integer(n, d * pow2(k))
}

/// The magnitude of the double nearest to `n / d` units, or infinity where that
/// is beyond the largest finite double.
#[verifier::opaque]
pub open spec fn round_ratio(n: nat, d: nat) -> nat {
    let magnitude = round_unbounded(n, d);
    if magnitude < INFINITY {
        magnitude
    } else {
        INFINITY as nat
    }
}

/// Rounding gives a magnitude.
pub broadcast proof fn lemma_round_bounded(n: nat, d: nat)
    ensures
        #[trigger] round_ratio(n, d) <= INFINITY,
{
    reveal(round_ratio);
}

/// What [`scale`] promises.
pub proof fn lemma_scale(n: nat, d: nat)
    requires
        d > 0,
    ensures
        n < d * pow2(scale(n, d) + 53),
        scale(n, d) > 0 ==> n >= d * pow2((scale(n, d) + 52) as nat),
    decreases n - d,
{
    lemma2_to64_rest();
    if n >= d * 0x20_0000_0000_0000 {
        lemma_scale(n, 2 * d);
        let j = scale(n, 2 * d);
        lemma_pow2_unfold((j + 54) as nat);
        lemma_pow2_unfold((j + 53) as nat);
        assert((2 * d) * pow2(j + 53) == d * (2 * pow2(j + 53))) by (nonlinear_arith);
        if j > 0 {
            assert((2 * d) * pow2((j + 52) as nat) == d * (2 * pow2((j + 52) as nat)))
                by (nonlinear_arith);
        }
    }
}

/// The bounds of [`lemma_scale`] determine the scale.
pub proof fn lemma_scale_unique(n: nat, d: nat, k: nat)
    requires
        d > 0,
        n < d * pow2(k + 53),
        k > 0 ==> n >= d * pow2((k + 52) as nat),
    ensures
        scale(n, d) == k,
{
    lemma_scale(n, d);
    let s = scale(n, d);
    if s < k {
        if s + 53 < k + 52 {
            lemma_pow2_strictly_increases(s + 53, (k + 52) as nat);
        }
        assert(d * pow2(s + 53) <= d * pow2((k + 52) as nat)) by (nonlinear_arith)
            requires
                pow2(s + 53) <= pow2((k + 52) as nat),
        ;
    }
    if k < s {
        if k + 53 < s + 52 {
            lemma_pow2_strictly_increases(k + 53, (s + 52) as nat);
        }
        assert(d * pow2(k + 53) <= d * pow2((s + 52) as nat)) by (nonlinear_arith)
            requires
                pow2(k + 53) <= pow2((s + 52) as nat),
        ;
    }
}

/// A division with remainder determines the nearest integer.
pub proof fn lemma_nearest_integer(n: nat, d: nat, q: nat, r: nat)
    requires
        n == q * d + r,
        r < d,
    ensures
        nearest_integer(n, d) == (if 2 * r > d || (2 * r == d && q % 2 == 1) {
            q + 1
        } else {
            q
        }),
{
    lemma_fundamental_div_mod_converse(n as int, d as int, q as int, r as int);
}

/// A common factor of both sides of a ratio does not change the nearest integer.
pub proof fn lemma_nearest_integer_cancel(n: nat, e: nat, c: nat)
    requires
        e > 0,
        c > 0,
    ensures
        nearest_integer(n * c, e * c) == nearest_integer(n, e),
{
    let q = n / e;
    let r = n % e;
    lemma_fundamental_div_mod(n as int, e as int);
    assert(n * c == q * (e * c) + r * c) by (nonlinear_arith)
        requires
            n == e * q + r,
    ;
    assert(r * c < e * c) by (nonlinear_arith)
        requires
            r < e,
            c > 0,
    ;
    lemma_nearest_integer(n * c, e * c, q, r * c);
    assert((2 * (r * c) > e * c) == (2 * r > e)) by (nonlinear_arith)
        requires
            c > 0,
    ;
    assert((2 * (r * c) == e * c) == (2 * r == e)) by (nonlinear_arith)
        requires
            c > 0,
    ;
}

/// A common factor of both sides of a ratio does not change the rounding.
pub proof fn lemma_round_ratio_cancel(n: nat, d: nat, c: nat)
    requires
        d > 0,
        c > 0,
    ensures
        round_unbounded(n * c, d * c) == round_unbounded(n, d),
        round_ratio(n * c, d * c) == round_ratio(n, d),
{
    reveal(round_ratio);
    let k = scale(n, d);
    lemma_scale(n, d);
    assert((d * c) * pow2(k + 53) == (d * pow2(k + 53)) * c) by (nonlinear_arith);
    assert(n * c < (d * pow2(k + 53)) * c) by (nonlinear_arith)
        requires
            n < d * pow2(k + 53),
            c > 0,
    ;
    assert(d * c > 0) by (nonlinear_arith)
        requires
            d > 0,
            c > 0,
    ;
    if k > 0 {
        assert((d * c) * pow2((k + 52) as nat) == (d * pow2((k + 52) as nat)) * c)
            by (nonlinear_arith);
        assert(n * c >= (d * pow2((k + 52) as nat)) * c) by (nonlinear_arith)
            requires
                n >= d * pow2((k + 52) as nat),
        ;
    }
    lemma_scale_unique(n * c, d * c, k);
    let e = d * pow2(k);
    lemma_pow2_pos(k);
    assert(e > 0) by (nonlinear_arith)
        requires
            d > 0,
            pow2(k) > 0,
            e == d * pow2(k),
    ;
    assert((d * c) * pow2(k) == e * c) by (nonlinear_arith)
        requires
            e == d * pow2(k),
    ;
    lemma_nearest_integer_cancel(n, e, c);
}

/// An exact ratio `n / d`, known to lie at `sig` times two to the power of
/// `up - down`, or, where `sticky` is set, strictly between that and the next
/// multiple of two to the power of `up - down`.
pub open spec fn located(n: nat, d: nat, sig: nat, up: nat, down: nat, sticky: bool) -> bool {
    &&& sig * (pow2(up) * d) <= n * pow2(down) < (sig + 1) * (pow2(up) * d)
    &&& sticky == (sig * (pow2(up) * d) != n * pow2(down))
}

/// The scale of a located ratio follows from the bit length of its significand.
proof fn lemma_located_scale(
    n: nat,
    d: nat,
    sig: nat,
    up: nat,
    down: nat,
    sticky: bool,
    length: nat,
    k: nat,
)
    requires
        d > 0,
        located(n, d, sig, up, down, sticky),
        length > 0,
        pow2((length - 1) as nat) <= sig < pow2(length),
        k == (if length + up > 53 + down {
            length + up - 53 - down
        } else {
            0
        }),
    ensures
        scale(n, d) == k,
{
    let u = pow2(up) * d;
    let whole = n * pow2(down);
    lemma_pow2_pos(down);
    // Upper bound: whole < 2^length * 2^up * d <= d * 2^(k + 53) * 2^down.
    assert((sig + 1) * u <= pow2(length) * u) by (nonlinear_arith)
        requires
            sig + 1 <= pow2(length),
    ;
    lemma_pow2_adds(length, up);
    assert(pow2(length) * u == pow2(length + up) * d) by (nonlinear_arith)
        requires
            u == pow2(up) * d,
            pow2(length + up) == pow2(length) * pow2(up),
    ;
    if length + up < k + 53 + down {
        lemma_pow2_strictly_increases(length + up, k + 53 + down);
    }
    assert(pow2(length + up) * d <= pow2(k + 53 + down) * d) by (nonlinear_arith)
        requires
            pow2(length + up) <= pow2(k + 53 + down),
    ;
    lemma_pow2_adds(k + 53, down);
    assert(pow2(k + 53 + down) * d == (d * pow2(k + 53)) * pow2(down)) by (nonlinear_arith)
        requires
            pow2(k + 53 + down) == pow2(k + 53) * pow2(down),
    ;
    assert(n < d * pow2(k + 53)) by (nonlinear_arith)
        requires
            n * pow2(down) < (d * pow2(k + 53)) * pow2(down),
            pow2(down) > 0,
    ;
    if k > 0 {
        assert(pow2((length - 1) as nat) * u <= sig * u) by (nonlinear_arith)
            requires
                pow2((length - 1) as nat) <= sig,
        ;
        lemma_pow2_adds((length - 1) as nat, up);
        let e = (length - 1 + up) as nat;
        assert(pow2((length - 1) as nat) * u == pow2(e) * d) by (nonlinear_arith)
            requires
                u == pow2(up) * d,
                pow2(e) == pow2((length - 1) as nat) * pow2(up),
        ;
        let h = (k + 52) as nat;
        lemma_pow2_adds(h, down);
        assert(e == h + down);
        assert(pow2(e) * d == (d * pow2(h)) * pow2(down)) by (nonlinear_arith)
            requires
                pow2(e) == pow2(h) * pow2(down),
        ;
        assert(n >= d * pow2(h)) by (nonlinear_arith)
            requires
                n * pow2(down) >= (d * pow2(h)) * pow2(down),
                pow2(down) > 0,
        ;
    }
    lemma_scale_unique(n, d, k);
}

/// The nearest integer of a located ratio, where at least one bit of the
/// significand is dropped.
proof fn lemma_located_drop(
    n: nat,
    d: nat,
    sig: nat,
    up: nat,
    down: nat,
    sticky: bool,
    k: nat,
    shift: nat,
)
    requires
        d > 0,
        located(n, d, sig, up, down, sticky),
        shift > 0,
        up + shift == down + k,
    ensures
        nearest_integer(n, d * pow2(k)) == ({
            let q = sig / pow2(shift);
            let r = sig % pow2(shift);
            let half = pow2((shift - 1) as nat);
            if r > half || (r == half && (sticky || q % 2 == 1)) {
                q + 1
            } else {
                q
            }
        }),
{
    let u = pow2(up) * d;
    let whole = n * pow2(down);
    let p = pow2(shift);
    let half = pow2((shift - 1) as nat);
    let q = sig / p;
    let r = sig % p;
    let f = (whole - sig * u) as nat;
    lemma_pow2_pos(up);
    lemma_pow2_pos(down);
    lemma_pow2_pos(shift);
    lemma_pow2_unfold(shift);
    assert(u > 0) by (nonlinear_arith)
        requires
            u == pow2(up) * d,
            d > 0,
            pow2(up) > 0,
    ;
    assert((sig + 1) * u == sig * u + u) by (nonlinear_arith);
    // The divisor: d * 2^k * 2^down == u * p.
    lemma_pow2_adds(up, shift);
    lemma_pow2_adds(down, k);
    assert((d * pow2(k)) * pow2(down) == u * p) by (nonlinear_arith)
        requires
            pow2(up + shift) == pow2(up) * p,
            pow2(up + shift) == pow2(down) * pow2(k),
            u == pow2(up) * d,
    ;
    // The quotient and the remainder.
    lemma_fundamental_div_mod(sig as int, p as int);
    let rem = r * u + f;
    assert(whole == q * (u * p) + rem) by (nonlinear_arith)
        requires
            whole == sig * u + f,
            sig == p * q + r,
            rem == r * u + f,
    ;
    assert(rem < u * p) by (nonlinear_arith)
        requires
            rem == r * u + f,
            f < u,
            r + 1 <= p,
    ;
    lemma_nearest_integer(whole, u * p, q, rem);
    // Comparing twice the remainder with the divisor is comparing r with half.
    assert(u * p == 2 * (half * u)) by (nonlinear_arith)
        requires
            p == 2 * half,
    ;
    if r < half {
        assert(rem < half * u) by (nonlinear_arith)
            requires
                rem == r * u + f,
                f < u,
                r + 1 <= half,
        ;
    } else if r > half {
        assert(rem > half * u) by (nonlinear_arith)
            requires
                rem == r * u + f,
                r >= half + 1,
                u > 0,
        ;
    }
    let c = pow2(down);
    let e = d * pow2(k);
    lemma_pow2_pos(k);
    assert(e > 0) by (nonlinear_arith)
        requires
            e == d * pow2(k),
            d > 0,
            pow2(k) > 0,
    ;
    lemma_nearest_integer_cancel(n, e, c);
}

/// The nearest integer of a located ratio, where no bit is dropped.
proof fn lemma_located_keep(n: nat, d: nat, sig: nat, up: nat, down: nat, k: nat, shift: nat)
    requires
        d > 0,
        located(n, d, sig, up, down, false),
        up == down + k + shift,
    ensures
        nearest_integer(n, d * pow2(k)) == sig * pow2(shift),
{
    let c = pow2(down);
    let e = d * pow2(k);
    let q = sig * pow2(shift);
    lemma_pow2_pos(k);
    lemma_pow2_pos(down);
    lemma_pow2_adds(down, k);
    lemma_pow2_adds(down + k, shift);
    assert(sig * (pow2(up) * d) == q * (e * c)) by (nonlinear_arith)
        requires
            q == sig * pow2(shift),
            e == d * pow2(k),
            pow2(up) == pow2(down + k) * pow2(shift),
            pow2(down + k) == c * pow2(k),
    ;
    assert(n == q * e) by (nonlinear_arith)
        requires
            n * c == q * (e * c),
            c > 0,
    ;
    assert(e > 0) by (nonlinear_arith)
        requires
            e == d * pow2(k),
            d > 0,
            pow2(k) > 0,
    ;
    lemma_nearest_integer(n, e, q, 0);
}

/// Nothing rounds to zero.
pub proof fn lemma_round_zero(d: nat)
    requires
        d > 0,
    ensures
        round_ratio(0, d) == 0,
{
    reveal(round_ratio);
    lemma_pow2_pos(53);
    assert(0 < d * pow2(53)) by (nonlinear_arith)
        requires
            d > 0,
            pow2(53) > 0,
    ;
    lemma_scale_unique(0, d, 0);
    lemma_pow2_pos(0);
    assert(d * pow2(0) > 0) by (nonlinear_arith)
        requires
            d > 0,
            pow2(0) > 0,
    ;
    lemma_nearest_integer(0, d * pow2(0), 0, 0);
}

/// A ratio of large scale rounds to infinity.
proof fn lemma_large_scale(n: nat, d: nat)
    requires
        d > 0,
        scale(n, d) >= 2046,
    ensures
        round_ratio(n, d) == INFINITY,
{
    reveal(round_ratio);
    let k = scale(n, d);
    let e = d * pow2(k);
    lemma_scale(n, d);
    lemma_pow2_pos(k);
    lemma_pow2_adds(k, 52);
    lemma2_to64_rest();
    assert(e > 0) by (nonlinear_arith)
        requires
            e == d * pow2(k),
            d > 0,
            pow2(k) > 0,
    ;
    let q = n / e;
    lemma_fundamental_div_mod(n as int, e as int);
    assert(e * (q + 1) == e * q + e) by (nonlinear_arith);
    assert(d * pow2((k + 52) as nat) == e * 0x10_0000_0000_0000) by (nonlinear_arith)
        requires
            pow2((k + 52) as nat) == pow2(k) * 0x10_0000_0000_0000,
            e == d * pow2(k),
    ;
    assert(q >= 0x10_0000_0000_0000) by (nonlinear_arith)
        requires
            n < e * (q + 1),
            n >= e * 0x10_0000_0000_0000,
            e > 0,
    ;
}

/// Only an exact significand is short enough to be kept whole.
proof fn lemma_pow2_sticky_length(sig: nat, length: nat)
    requires
        sig < pow2(length),
    ensures
        length <= 53 ==> sig < 0x20_0000_0000_0000,
{
    lemma2_to64_rest();
    if length < 53 {
        lemma_pow2_strictly_increases(length, 53);
    }
}

/// A significand of `length` bits keeps below 53 bits when lifted by at most
/// the bits that are left.
proof fn lemma_lifted_bound(sig: nat, length: nat, lift: nat)
    requires
        0 < sig < pow2(length),
        length + lift <= 53,
    ensures
        sig * pow2(lift) < 0x20_0000_0000_0000,
        pow2(lift) <= 0x20_0000_0000_0000,
{
    lemma2_to64_rest();
    lemma_pow2_pos(lift);
    lemma_pow2_adds(length, lift);
    if length + lift < 53 {
        lemma_pow2_strictly_increases(length + lift, 53);
    }
    assert(sig * pow2(lift) < pow2(length) * pow2(lift)) by (nonlinear_arith)
        requires
            sig < pow2(length),
            pow2(lift) > 0,
    ;
    if lift < 53 {
        lemma_pow2_strictly_increases(lift, 53);
    }
}

/// A significand from which all but at most 53 bits are dropped keeps below
/// 53 bits.
proof fn lemma_kept_bound(sig: nat, length: nat, shift: nat)
    requires
        sig < pow2(length),
        length <= 53 + shift,
    ensures
        sig / pow2(shift) < 0x20_0000_0000_0000,
{
    lemma2_to64_rest();
    lemma_pow2_pos(shift);
    lemma_pow2_adds(53, shift);
    if length < 53 + shift {
        lemma_pow2_strictly_increases(length, 53 + shift);
    }
    lemma_fundamental_div_mod(sig as int, pow2(shift) as int);
    let q = sig / pow2(shift);
    assert(q < 0x20_0000_0000_0000) by (nonlinear_arith)
        requires
            sig == pow2(shift) * q + sig % pow2(shift),
            sig < 0x20_0000_0000_0000 * pow2(shift),
            pow2(shift) > 0,
    ;
}

/// Zero has no units.
pub proof fn lemma_units_zero()
    ensures
        units(0) == 0,
{
    assert(0 * pow2(0) == 0);
}

/// A larger magnitude stands for more units.
pub proof fn lemma_units_increase(a: nat, b: nat)
    requires
        a < b,
    ensures
        units(a) < units(b),
{
    let ea = exponent(a);
    let eb = exponent(b);
    lemma_pow2_pos(ea);
    lemma_pow2_pos(eb);
    if ea == eb {
        assert(significand(a) * pow2(ea) < significand(b) * pow2(ea)) by (nonlinear_arith)
            requires
                significand(a) < significand(b),
                pow2(ea) > 0,
        ;
    } else {
        assert(ea < eb);
        assert(significand(a) < 2 * BINADE);
        assert(significand(b) >= BINADE);
        if ea + 1 < eb {
            lemma_pow2_strictly_increases(ea + 1, eb);
        }
        lemma_pow2_adds(ea, 1);
        lemma2_to64();
        assert(significand(a) * pow2(ea) < significand(b) * pow2(eb)) by (nonlinear_arith)
            requires
                significand(a) < 2 * BINADE,
                significand(b) >= BINADE,
                pow2(ea) > 0,
                pow2(eb) >= pow2(ea) * 2,
        ;
    }
}

/// Equal units are equal magnitudes.
pub proof fn lemma_units_injective(a: nat, b: nat)
    requires
        units(a) == units(b),
    ensures
        a == b,
{
    if a < b {
        lemma_units_increase(a, b);
    } else if b < a {
        lemma_units_increase(b, a);
    }
}

/// The distance of two naturals.
pub open spec fn distance(a: nat, b: nat) -> nat {
    if a <= b {
        (b - a) as nat
    } else {
        (a - b) as nat
    }
}

/// No multiple of `e` is nearer to `n` than the nearest integer's, and only an
/// even one is as near as another.
proof fn lemma_nearest_multiple(n: nat, e: nat, z: nat)
    requires
        e > 0,
    ensures
        distance(nearest_integer(n, e) * e, n) <= distance(z * e, n),
        distance(nearest_integer(n, e) * e, n) == distance(z * e, n) && z
            != nearest_integer(n, e) ==> nearest_integer(n, e) % 2 == 0,
{
    let q = n / e;
    let r = n % e;
    lemma_fundamental_div_mod(n as int, e as int);
    assert(q * e == e * q) by (nonlinear_arith);
    assert((q + 1) * e == q * e + e) by (nonlinear_arith);
    if z <= q {
        assert(z * e <= q * e) by (nonlinear_arith)
            requires
                z <= q,
                e > 0,
        ;
        if z < q {
            assert(z * e <= q * e - e) by (nonlinear_arith)
                requires
                    z + 1 <= q,
                    e > 0,
            ;
        }
    } else {
        assert(z * e >= q * e + e) by (nonlinear_arith)
            requires
                z >= q + 1,
                e > 0,
        ;
        if z > q + 1 {
            assert(z * e >= q * e + 2 * e) by (nonlinear_arith)
                requires
                    z >= q + 2,
                    e > 0,
            ;
        }
    }
}

/// What a magnitude of scale `k` stands for.
pub proof fn lemma_units_at_scale(k: nat, q: nat)
    requires
        k > 0 ==> q >= BINADE,
        q <= 2 * BINADE,
    ensures
        units(k * BINADE as nat + q) == q * pow2(k),
{
    let m = k * BINADE as nat + q;
    if q == 2 * BINADE {
        assert(m == (k + 2) * BINADE);
        assert(exponent(m) == k + 1);
        assert(significand(m) == BINADE);
        lemma_pow2_unfold(k + 1);
        assert(BINADE as nat * (2 * pow2(k)) == q * pow2(k)) by (nonlinear_arith)
            requires
                q == 2 * BINADE,
        ;
    } else if q >= BINADE {
        assert(m / BINADE as nat == k + 1);
        assert(exponent(m) == k);
    } else {
        assert(m == q);
    }
}

/// The nearest integer at a ratio's own scale is a significand.
pub proof fn lemma_significand_at_scale(n: nat, d: nat)
    requires
        d > 0,
    ensures
        nearest_integer(n, d * pow2(scale(n, d))) <= 2 * BINADE,
        scale(n, d) > 0 ==> nearest_integer(n, d * pow2(scale(n, d))) >= BINADE,
        scale(n, d) > 0 ==> n >= BINADE * (d * pow2(scale(n, d))),
        d * pow2(scale(n, d)) > 0,
{
    let k = scale(n, d);
    let e = d * pow2(k);
    lemma_scale(n, d);
    lemma_pow2_pos(k);
    lemma_pow2_adds(k, 52);
    lemma_pow2_adds(k, 53);
    lemma2_to64_rest();
    assert(e > 0) by (nonlinear_arith)
        requires
            e == d * pow2(k),
            d > 0,
            pow2(k) > 0,
    ;
    assert(d * pow2(k + 53) == e * 0x20_0000_0000_0000) by (nonlinear_arith)
        requires
            pow2(k + 53) == pow2(k) * 0x20_0000_0000_0000,
            e == d * pow2(k),
    ;
    assert(d * pow2((k + 52) as nat) == e * 0x10_0000_0000_0000) by (nonlinear_arith)
        requires
            pow2((k + 52) as nat) == pow2(k) * 0x10_0000_0000_0000,
            e == d * pow2(k),
    ;
    let q = n / e;
    lemma_fundamental_div_mod(n as int, e as int);
    assert(q < 0x20_0000_0000_0000) by (nonlinear_arith)
        requires
            e * q <= n,
            n < e * 0x20_0000_0000_0000,
            e > 0,
    ;
    if k > 0 {
        assert(e * (q + 1) == e * q + e) by (nonlinear_arith);
        assert(q >= 0x10_0000_0000_0000) by (nonlinear_arith)
            requires
                n < e * (q + 1),
                n >= e * 0x10_0000_0000_0000,
                e > 0,
        ;
    }
}

/// Rounding finds the nearest magnitude: no magnitude's units are nearer to
/// `n / d`, and where another magnitude's are as near, the one found is even.
/// A finite result is that magnitude.
pub proof fn law_round_nearest(n: nat, d: nat, other: nat)
    requires
        d > 0,
    ensures
        distance(units(round_unbounded(n, d)) * d, n) <= distance(
            units(other) * d,
            n,
        ),
        distance(units(round_unbounded(n, d)) * d, n) == distance(
            units(other) * d,
            n,
        ) && other != round_unbounded(n, d) ==> round_unbounded(n, d) % 2 == 0,
        round_ratio(n, d) < INFINITY ==> round_ratio(n, d) == round_unbounded(n, d),
{
    reveal(round_ratio);
    let k = scale(n, d);
    let e = d * pow2(k);
    let q = nearest_integer(n, e);
    lemma_significand_at_scale(n, d);
    lemma_units_at_scale(k, q);
    assert((q * pow2(k)) * d == q * e) by (nonlinear_arith)
        requires
            e == d * pow2(k),
    ;
    let m = exponent(other);
    let s = significand(other);
    if m >= k {
        lemma_pow2_adds((m - k) as nat, k);
        let z = s * pow2((m - k) as nat);
        assert((s * pow2(m)) * d == z * e) by (nonlinear_arith)
            requires
                z == s * pow2((m - k) as nat),
                pow2(m) == pow2((m - k) as nat) * pow2(k),
                e == d * pow2(k),
        ;
        lemma_nearest_multiple(n, e, z);
        if z == q {
            // Equal units are equal magnitudes.
            assert(units(other) == units(round_unbounded(n, d))) by (nonlinear_arith)
                requires
                    units(other) * d == units(round_unbounded(n, d)) * d,
                    d > 0,
            ;
            lemma_units_injective(other, round_unbounded(n, d));
        }
    } else {
        lemma_nearest_multiple(n, e, BINADE as nat);
        if m + 1 < k {
            lemma_pow2_strictly_increases(m + 1, k);
        }
        lemma_pow2_unfold(m + 1);
        lemma_pow2_pos(m);
        assert((s * pow2(m)) * d < BINADE * e) by (nonlinear_arith)
            requires
                s < 2 * BINADE,
                pow2(k) >= 2 * pow2(m),
                pow2(m) > 0,
                d > 0,
                e == d * pow2(k),
        ;
    }
}

/// Rounding leaves a quantity alone that is a magnitude's units already.
pub proof fn law_round_exact(magnitude: nat, d: nat)
    requires
        d > 0,
    ensures
        round_unbounded(units(magnitude) * d, d) == magnitude,
        magnitude <= INFINITY ==> round_ratio(units(magnitude) * d, d) == magnitude,
{
    reveal(round_ratio);
    let n = units(magnitude) * d;
    law_round_nearest(n, d, magnitude);
    let r = round_unbounded(n, d);
    assert(units(r) == units(magnitude)) by (nonlinear_arith)
        requires
            units(r) * d == units(magnitude) * d,
            d > 0,
    ;
    lemma_units_injective(r, magnitude);
}

/// Rounding keeps the order of ratios.
pub proof fn law_round_monotone(n1: nat, d1: nat, n2: nat, d2: nat)
    requires
        d1 > 0,
        d2 > 0,
        n1 * d2 <= n2 * d1,
    ensures
        round_unbounded(n1, d1) <= round_unbounded(n2, d2),
        round_ratio(n1, d1) <= round_ratio(n2, d2),
{
    reveal(round_ratio);
    let a = n1 * d2;
    let b = n2 * d1;
    let d = d1 * d2;
    assert(d2 * d1 == d1 * d2) by (nonlinear_arith);
    assert(d > 0) by (nonlinear_arith)
        requires
            d == d1 * d2,
            d1 > 0,
            d2 > 0,
    ;
    lemma_round_ratio_cancel(n1, d1, d2);
    lemma_round_ratio_cancel(n2, d2, d1);
    let r1 = round_unbounded(a, d);
    let r2 = round_unbounded(b, d);
    if r1 > r2 {
        lemma_units_increase(r2, r1);
        assert(units(r2) * d < units(r1) * d) by (nonlinear_arith)
            requires
                units(r2) < units(r1),
                d > 0,
        ;
        law_round_nearest(a, d, r2);
        law_round_nearest(b, d, r1);
        assert(a == b);
    }
}

/// A ratio rounds to infinity from half a spacing above the largest finite
/// double on.
pub proof fn law_round_overflow(n: nat, d: nat)
    requires
        d > 0,
    ensures
        round_ratio(n, d) == INFINITY <==> n >= d * (0x3f_ffff_ffff_ffff * pow2(2044)),
{
    reveal(round_ratio);
    let t = 0x3f_ffff_ffff_ffff * pow2(2044);
    let p = pow2(2045);
    lemma_pow2_unfold(2045);
    lemma_pow2_pos(2044);
    lemma_pow2_adds(2045, 53);
    lemma_pow2_adds(2045, 52);
    lemma2_to64_rest();
    // The threshold itself.
    lemma_scale_unique(t, 1, 2045);
    lemma_nearest_integer(t, p, 0x1f_ffff_ffff_ffff, pow2(2044));
    assert(1 * p == p);
    assert(round_unbounded(t, 1) == INFINITY);
    if n >= d * t {
        assert(t * d <= n * 1) by (nonlinear_arith)
            requires
                n >= d * t,
        ;
        law_round_monotone(t, 1, n, d);
    } else {
        let k = scale(n, d);
        lemma_significand_at_scale(n, d);
        lemma_scale(n, d);
        let e = d * pow2(k);
        let q = n / e;
        let r = n % e;
        lemma_fundamental_div_mod(n as int, e as int);
        if k > 2045 {
            lemma_pow2_unfold(2046);
            if k > 2046 {
                lemma_pow2_strictly_increases(2046, k);
            }
            assert(n >= d * t) by (nonlinear_arith)
                requires
                    n >= BINADE * e,
                    e == d * pow2(k),
                    pow2(k) >= 2 * p,
                    p == 2 * pow2(2044),
                    t == 0x3f_ffff_ffff_ffff * pow2(2044),
                    BINADE == 0x10_0000_0000_0000u64,
                    pow2(2044) > 0,
                    d > 0,
            {
                assert(pow2(k) >= 4 * pow2(2044));
                assert(BINADE * e == d * (BINADE * pow2(k)));
                assert(BINADE * pow2(k) >= t);
            }
        } else if k == 2045 {
            let h = d * pow2(2044);
            assert(e == 2 * h) by (nonlinear_arith)
                requires
                    e == d * p,
                    p == 2 * pow2(2044),
                    h == d * pow2(2044),
            ;
            assert(d * t == 0x3f_ffff_ffff_ffff * h) by (nonlinear_arith)
                requires
                    t == 0x3f_ffff_ffff_ffff * pow2(2044),
                    h == d * pow2(2044),
            ;
            assert(e * q == 2 * (h * q)) by (nonlinear_arith)
                requires
                    e == 2 * h,
            ;
            if nearest_integer(n, e) >= 0x20_0000_0000_0000 {
                // Then q is one less, and the remainder reaches half.
                if q >= 0x20_0000_0000_0000 {
                    assert(h * q >= h * 0x20_0000_0000_0000) by (nonlinear_arith)
                        requires
                            q >= 0x20_0000_0000_0000,
                    ;
                } else {
                    assert(q == 0x1f_ffff_ffff_ffff);
                    assert(2 * r >= e);
                    assert(h * q == 0x1f_ffff_ffff_ffff * h) by (nonlinear_arith)
                        requires
                            q == 0x1f_ffff_ffff_ffff,
                    ;
                }
                assert(false);
            }
        }
    }
}

/// Two to the power of `e`.
pub(crate) fn power_of_two(e: u64) -> (p: u128)
    requires
        e < 128,
    ensures
        p == pow2(e as nat),
{
    let mut p: u128 = 1;
    let mut i: u64 = 0;
    proof {
        lemma2_to64();
    }
    while i < e
        invariant
            i <= e < 128,
            p == pow2(i as nat),
        decreases e - i,
    {
        proof {
            lemma_pow2_unfold((i + 1) as nat);
            lemma_pow2_below_128(i as nat);
        }
        p = p * 2;
        i = i + 1;
    }
    p
}

/// Below the exponent 127, doubling a power of two stays within 128 bits.
proof fn lemma_pow2_below_128(e: nat)
    requires
        e < 127,
    ensures
        pow2(e) * 2 <= u128::MAX,
{
    lemma2_to64();
    lemma_pow2_adds(63, 63);
    lemma2_to64_rest();
    if e < 126 {
        lemma_pow2_strictly_increases(e, 126);
    }
    assert(0x8000_0000_0000_0000 * 0x8000_0000_0000_0000 * 2 <= u128::MAX);
}

/// The number of bits of a positive integer below two to the power of 127.
pub(crate) fn bit_length(x: u128) -> (length: u64)
    requires
        0 < x < 0x8000_0000_0000_0000_0000_0000_0000_0000,
    ensures
        1 <= length <= 127,
        pow2((length - 1) as nat) <= x < pow2(length as nat),
{
    let mut length: u64 = 1;
    let mut p: u128 = 2;
    proof {
        lemma2_to64();
        lemma2_to64_rest();
        lemma_pow2_adds(63, 64);
        assert(0x8000_0000_0000_0000 * 0x1_0000_0000_0000_0000
            == 0x8000_0000_0000_0000_0000_0000_0000_0000);
    }
    while length < 127 && p <= x
        invariant
            1 <= length <= 127,
            p == pow2(length as nat),
            pow2((length - 1) as nat) <= x,
            x < pow2(127),
        decreases 127 - length,
    {
        proof {
            lemma_pow2_unfold((length + 1) as nat);
            lemma_pow2_below_128(length as nat);
        }
        p = p * 2;
        length = length + 1;
    }
    length
}

/// Rounds a ratio that is located at `sig` times two to the power of `e`.
///
/// A sticky ratio needs more significant bits than a double holds, so that the
/// part below `sig` only ever breaks a tie.
pub(crate) fn round_located(
    sig: u128,
    e: i64,
    sticky: bool,
    Ghost(n): Ghost<nat>,
    Ghost(d): Ghost<nat>,
    Ghost(up): Ghost<nat>,
    Ghost(down): Ghost<nat>,
) -> (magnitude: u64)
    requires
        d > 0,
        located(n, d, sig as nat, up, down, sticky),
        e == up - down,
        -0x10000 <= e <= 0x10000,
        sig < 0x8000_0000_0000_0000_0000_0000_0000_0000,
        sticky ==> sig >= 0x20_0000_0000_0000,
    ensures
        magnitude == round_ratio(n, d),
        magnitude <= INFINITY,
{
    if sig == 0 {
        proof {
            lemma_pow2_pos(down);
            assert(0 * (pow2(up) * d) == 0) by (nonlinear_arith);
            assert(n == 0) by (nonlinear_arith)
                requires
                    n * pow2(down) == 0,
                    pow2(down) > 0,
            ;
            lemma_round_zero(d);
        }
        return 0;
    }
    let length: u64 = bit_length(sig);
    let top: i64 = length as i64 + e - 53;
    let k: i64 = if top > 0 {
        top
    } else {
        0
    };
    proof {
        lemma_located_scale(n, d, sig as nat, up, down, sticky, length as nat, k as nat);
    }
    if k >= 2046 {
        proof {
            lemma_large_scale(n, d);
        }
        return INFINITY;
    }
    let shift: i64 = k - e;
    let q: u64 = if shift <= 0 {
        let lift: u64 = (-shift) as u64;
        proof {
            lemma_pow2_sticky_length(sig as nat, length as nat);
            lemma_located_keep(n, d, sig as nat, up, down, k as nat, lift as nat);
            lemma_lifted_bound(sig as nat, length as nat, lift as nat);
        }
        (sig * power_of_two(lift)) as u64
    } else if shift > length as i64 {
        proof {
            lemma_located_drop(n, d, sig as nat, up, down, sticky, k as nat, shift as nat);
            let half = pow2((shift - 1) as nat);
            if length < shift - 1 {
                lemma_pow2_strictly_increases(length as nat, (shift - 1) as nat);
            }
            lemma_pow2_unfold(shift as nat);
            lemma_fundamental_div_mod_converse(
                sig as int,
                pow2(shift as nat) as int,
                0,
                sig as int,
            );
        }
        0
    } else {
        proof {
            lemma_located_drop(n, d, sig as nat, up, down, sticky, k as nat, shift as nat);
            lemma_pow2_unfold(shift as nat);
            lemma_pow2_pos(shift as nat);
            lemma_kept_bound(sig as nat, length as nat, shift as nat);
        }
        let p: u128 = power_of_two(shift as u64);
        let kept: u128 = sig / p;
        let rest: u128 = sig % p;
        let half: u128 = p / 2;
        if rest > half || (rest == half && (sticky || kept % 2 == 1)) {
            kept as u64 + 1
        } else {
            kept as u64
        }
    };
    let magnitude: u64 = k as u64 * BINADE + q;
    proof {
        reveal(round_ratio);
    }
    if magnitude < INFINITY {
        magnitude
    } else {
        INFINITY
    }
}

} // verus!
