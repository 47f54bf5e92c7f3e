//! What a model predicts, in terms of its inputs and of its source of timings.

use ndarray_interp::InterpolateError;
use vstd::arithmetic::power2::{
    lemma2_to64, lemma2_to64_rest, lemma_pow2_adds, lemma_pow2_pos, lemma_pow2_strictly_increases,
    pow2,
};
use vstd::math::{abs, max};
use vstd::prelude::*;

use crate::axis::InterpolationError;
use crate::double::{
    larger, law_integer_exact, lemma_abs_product, lemma_one, lemma_signed, product, ratio, Double,
};
use crate::interpolator::{AicCallback, DecodeInterpolator, PrefillInterpolator, PrefillTable};
use crate::laws::law_legacy_total;
use crate::model::{
    active_share, decode_formula, fresh_tokens, no_time, one_millisecond, prefill_formula,
    time_or_none, PerfModel,
};
use crate::polynomial::{
    law_active_share_exact, law_decode_formula_at_share, law_decode_formula_exact,
    law_prefill_formula_exact, law_ratio_near, lemma_product_near,
};
use crate::profile::{table_answer, PrefillInterp1D, PrefillProfile};
use crate::rounding::lemma_units_zero;
use crate::surface::PrefillInterp3D;

verus! {

/// A batch without requests or without fresh tokens takes no time, whatever the
/// model.
pub proof fn law_prefill_of_nothing<P: PrefillInterpolator, D: DecodeInterpolator, C: AicCallback>(
    model: PerfModel<P, D, C>,
    batch_size: usize,
    isl: usize,
    prefix: usize,
    time: Double,
)
    requires
        batch_size == 0 || isl <= prefix,
        model.prefill_outcome(batch_size, isl, prefix, time),
    ensures
        time.bits == 0,
{
}

/// A decode step of an empty batch takes no time, whatever the model.
pub proof fn law_decode_of_nothing<P: PrefillInterpolator, D: DecodeInterpolator, C: AicCallback>(
    model: PerfModel<P, D, C>,
    active_kv_tokens: usize,
    context_length: usize,
    total_kv_tokens: usize,
    time: Double,
)
    requires
        model.decode_outcome(0, active_kv_tokens, context_length, total_kv_tokens, time),
    ensures
        time.bits == 0,
{
}

/// A polynomial model predicts, for all fresh tokens of a batch together, their
/// square times 4.209989e-07 milliseconds, plus their number times 1.518344e-02, plus
/// 16.50142, to one part in two to the power of 46.
pub proof fn law_polynomial_prefill<P: PrefillInterpolator, D: DecodeInterpolator, C: AicCallback>(
    model: PerfModel<P, D, C>,
    batch_size: usize,
    isl: usize,
    prefix: usize,
    time: Double,
)
    requires
        model is Polynomial,
        batch_size > 0,
        isl > prefix,
        batch_size * (isl - prefix) <= u64::MAX,
        model.prefill_outcome(batch_size, isl, prefix, time),
    ensures
        time.finite(),
        ({
            let n = batch_size * (isl - prefix);
            let exact = 4_209_989 * (n * n) + 151_834_400_000 * n + 165_014_200_000_000;
            0x4000_0000_0000 * abs(10_000_000_000_000 * time.value() - exact * pow2(1074))
                <= exact * pow2(1074)
        }),
{
    let n = batch_size * (isl - prefix);
    let fresh = fresh_tokens(isl, prefix);
    assert(n >= 0) by (nonlinear_arith)
        requires
            n == batch_size * (isl - prefix),
            isl > prefix,
    ;
    let raw = prefill_formula(n as nat);
    law_prefill_formula_exact(n as nat);
    lemma_units_zero();
    lemma_signed(false, 0);
    lemma_pow2_pos(1074);
    let p = pow2(1074) as int;
    let exact = 4_209_989 * (n * n) + 151_834_400_000 * n + 165_014_200_000_000;
    assert(exact * p > 0) by (nonlinear_arith)
        requires
            exact == 4_209_989 * (n * n) + 151_834_400_000 * n + 165_014_200_000_000,
            n >= 0,
            p > 0,
    {
        assert(n * n >= 0);
    }
    assert(raw.value() > 0);
}

/// A surface is asked at the batch size, the fresh tokens per request and the prefix
/// tokens per request, and what it answers is the time. There is no negative time: a
/// number that is not positive, or is none, counts as zero, and so does an error.
pub proof fn law_interpolated_prefill<
    P: PrefillInterpolator,
    D: DecodeInterpolator,
    C: AicCallback,
>(model: PerfModel<P, D, C>, batch_size: usize, isl: usize, prefix: usize, time: Double)
    requires
        model is Interpolated,
        batch_size > 0,
        isl > prefix,
        model.prefill_outcome(batch_size, isl, prefix, time),
    ensures
        exists|answer: Result<Double, InterpolationError>|
            {
                &&& #[trigger] (*model->prefill_interp).may_answer(
                    ratio(batch_size as nat, 1),
                    ratio((isl - prefix) as nat, 1),
                    ratio(prefix as nat, 1),
                    answer,
                )
                &&& match answer {
                    Ok(raw) => if raw.nan() || raw.value() <= 0 {
                        time.bits == 0
                    } else {
                        time == raw
                    },
                    Err(_) => time.bits == 0,
                }
            },
{
    lemma_units_zero();
    lemma_signed(false, 0);
    let fresh = fresh_tokens(isl, prefix);
    let raw = choose|raw: Double|
        {
            &&& #[trigger] model.prefill_source(batch_size, fresh, prefix, raw)
            &&& time == larger(raw, no_time())
        };
    assert(model.prefill_source(batch_size, fresh, prefix, raw));
    let answer = choose|answer: Result<Double, InterpolationError>|
        {
            &&& #[trigger] (*model->prefill_interp).may_answer(
                ratio(batch_size as nat, 1),
                ratio(fresh as nat, 1),
                ratio(prefix as nat, 1),
                answer,
            )
            &&& raw == time_or_none(answer)
        };
    assert((isl - prefix) as nat == fresh as nat);
    assert((*model->prefill_interp).may_answer(
        ratio(batch_size as nat, 1),
        ratio((isl - prefix) as nat, 1),
        ratio(prefix as nat, 1),
        answer,
    ));
}

/// The batch-aware surface answers with its time at the point, and nothing else.
pub proof fn law_surface_answers(
    surface: PrefillInterp3D,
    x: Double,
    y: Double,
    z: Double,
    answer: Result<Double, InterpolationError>,
)
    ensures
        surface.may_answer(x, y, z, answer) <==> answer == surface.time_at(x, y, z),
{
}

/// A legacy surface answers what its table answers at the product of the batch size
/// and the fresh tokens per request, and hands on the table's error. It answers
/// nothing else, and the prefix has no part in it.
pub proof fn law_legacy_surface_answers<T: PrefillTable>(
    table: PrefillInterp1D<T>,
    x: Double,
    y: Double,
    z: Double,
    answer: Result<Double, InterpolationError>,
)
    ensures
        table.may_answer(x, y, z, answer) <==> exists|found: Result<Double, InterpolateError>|
            {
                &&& #[trigger] call_ensures(T::interp_scalar, (&table.inner, product(x, y)), found)
                &&& match found {
                    Ok(raw) => answer == Ok::<Double, InterpolationError>(raw),
                    Err(e) => answer == Err::<Double, InterpolationError>(
                        InterpolationError::Table(e),
                    ),
                }
            },
{
    if exists|found: Result<Double, InterpolateError>|
        {
            &&& #[trigger] call_ensures(T::interp_scalar, (&table.inner, product(x, y)), found)
            &&& match found {
                Ok(raw) => answer == Ok::<Double, InterpolationError>(raw),
                Err(e) => answer == Err::<Double, InterpolationError>(
                    InterpolationError::Table(e),
                ),
            }
        } {
        let found = choose|found: Result<Double, InterpolateError>|
            {
                &&& #[trigger] call_ensures(T::interp_scalar, (&table.inner, product(x, y)), found)
                &&& match found {
                    Ok(raw) => answer == Ok::<Double, InterpolationError>(raw),
                    Err(e) => answer == Err::<Double, InterpolationError>(
                        InterpolationError::Table(e),
                    ),
                }
            };
        assert(answer == table_answer(found));
    }
}

/// A profile answers what the surface of its layout answers.
pub proof fn law_profile_answers<T: PrefillTable>(
    profile: PrefillProfile<T>,
    x: Double,
    y: Double,
    z: Double,
    answer: Result<Double, InterpolationError>,
)
    ensures
        profile matches PrefillProfile::Legacy(table) ==> profile.may_answer(x, y, z, answer)
            == table.may_answer(x, y, z, answer),
        profile matches PrefillProfile::BatchAware(surface) ==> profile.may_answer(x, y, z, answer)
            == (answer == surface.time_at(x, y, z)),
{
}

/// The time of an interpolation is what it gave, and zero where it failed.
pub proof fn law_failed_interpolation<E>(interpolated: Result<Double, E>)
    ensures
        interpolated matches Ok(time) ==> time_or_none(interpolated) == time,
        interpolated is Err ==> time_or_none(interpolated).bits == 0,
{
}

/// How a model is shown tells its kind.
pub proof fn law_shown_by_kind<P, D, C>(model: PerfModel<P, D, C>)
    ensures
        model is Polynomial ==> model.shown() == "PerfModel::Polynomial"@,
        model is Interpolated ==> model.shown() == "PerfModel::Interpolated { .. }"@,
        model is Aiconfigurator ==> model.shown() == "PerfModel::Aiconfigurator"@,
{
}

/// A batch-aware profile is read at the batch size, the fresh tokens per request and
/// the prefix tokens per request. Its time there is the prediction, or zero where it
/// is not positive.
pub proof fn law_batch_aware_prefill<T: PrefillTable, D: DecodeInterpolator, C: AicCallback>(
    model: PerfModel<PrefillProfile<T>, D, C>,
    surface: PrefillInterp3D,
    batch_size: usize,
    isl: usize,
    prefix: usize,
    time: Double,
)
    requires
        model is Interpolated,
        *model->prefill_interp == PrefillProfile::<T>::BatchAware(surface),
        batch_size > 0,
        isl > prefix,
        model.prefill_outcome(batch_size, isl, prefix, time),
    ensures
        match surface.time_at(
            ratio(batch_size as nat, 1),
            ratio((isl - prefix) as nat, 1),
            ratio(prefix as nat, 1),
        ) {
            Ok(raw) => if raw.nan() || raw.value() <= 0 {
                time.bits == 0
            } else {
                time == raw
            },
            Err(_) => time.bits == 0,
        },
{
    law_interpolated_prefill(model, batch_size, isl, prefix, time);
}

/// A timing service is asked with the batch size, the fresh tokens per request and
/// the prefix, and what it answers is the prefill time, or zero where that is not
/// positive.
pub proof fn law_service_prefill<P: PrefillInterpolator, D: DecodeInterpolator, C: AicCallback>(
    model: PerfModel<P, D, C>,
    batch_size: usize,
    isl: usize,
    prefix: usize,
    time: Double,
)
    requires
        model is Aiconfigurator,
        batch_size > 0,
        isl > prefix,
        model.prefill_outcome(batch_size, isl, prefix, time),
    ensures
        exists|raw: Double|
            {
                &&& #[trigger] call_ensures(
                    C::predict_prefill,
                    (&*model->callback, batch_size, (isl - prefix) as usize, prefix),
                    raw,
                )
                &&& if raw.nan() || raw.value() <= 0 {
                    time.bits == 0
                } else {
                    time == raw
                }
            },
{
    lemma_units_zero();
    lemma_signed(false, 0);
    let fresh = fresh_tokens(isl, prefix);
    let raw = choose|raw: Double|
        {
            &&& #[trigger] model.prefill_source(batch_size, fresh, prefix, raw)
            &&& time == larger(raw, no_time())
        };
    assert(model.prefill_source(batch_size, fresh, prefix, raw));
}

/// A decode table is asked at the active KV tokens and the context length, and what
/// it answers is the decode time, or one millisecond where that is less, is no
/// number or is an error.
pub proof fn law_interpolated_decode<P: PrefillInterpolator, D: DecodeInterpolator, C: AicCallback>(
    model: PerfModel<P, D, C>,
    batch_size: usize,
    active_kv_tokens: usize,
    context_length: usize,
    total_kv_tokens: usize,
    time: Double,
)
    requires
        model is Interpolated,
        batch_size > 0,
        model.decode_outcome(
            batch_size,
            active_kv_tokens,
            context_length,
            total_kv_tokens,
            time,
        ),
    ensures
        exists|found: Result<Double, InterpolateError>|
            {
                &&& #[trigger] call_ensures(
                    D::interp,
                    (
                        &*model->decode_interp,
                        ratio(active_kv_tokens as nat, 1),
                        ratio(context_length as nat, 1),
                    ),
                    found,
                )
                &&& match found {
                    Ok(raw) => if raw.nan() || raw.value() <= pow2(1074) {
                        time.bits == 0x3ff0_0000_0000_0000 && time.value() == pow2(1074)
                    } else {
                        time == raw
                    },
                    Err(_) => time.bits == 0x3ff0_0000_0000_0000 && time.value() == pow2(1074),
                }
            },
{
    lemma_one();
    lemma_units_zero();
    lemma_signed(false, 0);
    lemma_pow2_pos(1074);
    let raw = choose|raw: Double|
        {
            &&& #[trigger] model.decode_source(
                batch_size,
                active_kv_tokens,
                context_length,
                total_kv_tokens,
                raw,
            )
            &&& time == larger(raw, one_millisecond())
        };
    assert(model.decode_source(
        batch_size,
        active_kv_tokens,
        context_length,
        total_kv_tokens,
        raw,
    ));
}

/// A timing service is asked for a decode step with the batch size, the context
/// length and two output tokens, and what it answers is the decode time, or one
/// millisecond where that is less or is no number.
pub proof fn law_service_decode<P: PrefillInterpolator, D: DecodeInterpolator, C: AicCallback>(
    model: PerfModel<P, D, C>,
    batch_size: usize,
    active_kv_tokens: usize,
    context_length: usize,
    total_kv_tokens: usize,
    time: Double,
)
    requires
        model is Aiconfigurator,
        batch_size > 0,
        model.decode_outcome(
            batch_size,
            active_kv_tokens,
            context_length,
            total_kv_tokens,
            time,
        ),
    ensures
        exists|raw: Double|
            {
                &&& #[trigger] call_ensures(
                    C::predict_decode,
                    (&*model->callback, batch_size, context_length, 2usize),
                    raw,
                )
                &&& if raw.nan() || raw.value() <= pow2(1074) {
                    time.bits == 0x3ff0_0000_0000_0000 && time.value() == pow2(1074)
                } else {
                    time == raw
                }
            },
{
    lemma_one();
    let raw = choose|raw: Double|
        {
            &&& #[trigger] model.decode_source(
                batch_size,
                active_kv_tokens,
                context_length,
                total_kv_tokens,
                raw,
            )
            &&& time == larger(raw, one_millisecond())
        };
    assert(model.decode_source(
        batch_size,
        active_kv_tokens,
        context_length,
        total_kv_tokens,
        raw,
    ));
}

/// A polynomial model predicts for a decode step with active KV tokens out of a
/// total -25.74 milliseconds times the square of their ratio, plus 54.01 times the
/// ratio, plus 5.74, or one millisecond where that is less, to one part in two to
/// the power of 46 of the sizes of the three terms together. With no tokens in total,
/// all of them count as active.
pub proof fn law_polynomial_decode<P: PrefillInterpolator, D: DecodeInterpolator, C: AicCallback>(
    model: PerfModel<P, D, C>,
    batch_size: usize,
    active_kv_tokens: usize,
    context_length: usize,
    total_kv_tokens: usize,
    time: Double,
)
    requires
        model is Polynomial,
        batch_size > 0,
        model.decode_outcome(
            batch_size,
            active_kv_tokens,
            context_length,
            total_kv_tokens,
            time,
        ),
    ensures
        time.finite(),
        time.value() >= pow2(1074),
        total_kv_tokens > 0 ==> {
            let (a, t) = (active_kv_tokens as int, total_kv_tokens as int);
            let p = pow2(1074) as int;
            0x4000_0000_0000 * abs(
                (100 * (t * t)) * time.value() - max(
                    (5401 * (a * t) + 574 * (t * t) - 2574 * (a * a)) * p,
                    (100 * (t * t)) * p,
                ),
            ) <= (2574 * (a * a) + 5401 * (a * t) + 574 * (t * t)) * p
        },
        total_kv_tokens == 0 ==> 0x4000_0000_0000 * abs(100 * time.value() - 3401 * pow2(1074))
            <= 8549 * pow2(1074),
{
    let (a, t) = (active_kv_tokens as int, total_kv_tokens as int);
    let p = pow2(1074) as int;
    let share = active_share(active_kv_tokens as nat, total_kv_tokens as nat);
    let y = decode_formula(share).value();
    lemma_one();
    lemma_pow2_pos(1074);
    law_active_share_exact(active_kv_tokens as nat, total_kv_tokens as nat);
    if total_kv_tokens > 0 {
        law_decode_formula_exact(active_kv_tokens as nat, total_kv_tokens as nat);
        let f = 100 * (t * t);
        assert((100 * y) * (t * t) == f * y) by (nonlinear_arith)
            requires
                f == 100 * (t * t),
        ;
        assert(f > 0) by (nonlinear_arith)
            requires
                f == 100 * (t * t),
                t > 0,
        ;
        assert(y <= p ==> f * y <= f * p) by (nonlinear_arith)
            requires
                f > 0,
        ;
        assert(y > p ==> f * y > f * p) by (nonlinear_arith)
            requires
                f > 0,
        ;
    } else {
        lemma_pow2_strictly_increases(1074, 1500);
        law_decode_formula_at_share(share);
        let z = 100 * y - 3401 * p;
        assert(z * p == (100 * y) * p - (5401 * (p * p) + 574 * (p * p) - 2574 * (p * p)))
            by (nonlinear_arith)
            requires
                z == 100 * y - 3401 * p,
        ;
        lemma_abs_product(z, p);
        assert(p * p >= 0) by (nonlinear_arith);
        let u = abs(z) as int;
        assert(0x2_0000_0000_0000 * u <= 8549 * p) by (nonlinear_arith)
            requires
                0x2_0000_0000_0000 * (u * p) <= 8549 * (p * p),
                p > 0,
        {
            assert(0x2_0000_0000_0000 * (u * p) == (0x2_0000_0000_0000 * u) * p);
            assert(8549 * (p * p) == (8549 * p) * p);
        }
    }
}

/// A legacy profile asks its table at the number of fresh tokens of the whole batch:
/// exactly below two to the power of 53, and to one part in two to the power of 50
/// above. What the table answers is the time, or zero where that is not positive or
/// is an error.
pub proof fn law_legacy_prefill<T: PrefillTable, D: DecodeInterpolator, C: AicCallback>(
    model: PerfModel<PrefillProfile<T>, D, C>,
    table: PrefillInterp1D<T>,
    batch_size: usize,
    isl: usize,
    prefix: usize,
    time: Double,
)
    requires
        model is Interpolated,
        *model->prefill_interp == PrefillProfile::Legacy(table),
        batch_size > 0,
        isl > prefix,
        model.prefill_outcome(batch_size, isl, prefix, time),
    ensures
        exists|x: Double, found: Result<Double, InterpolateError>|
            {
                &&& #[trigger] call_ensures(T::interp_scalar, (&table.inner, x), found)
                &&& x.finite()
                &&& 0x4_0000_0000_0000 * abs(
                    x.value() - (batch_size * (isl - prefix)) * pow2(1074),
                ) <= (batch_size * (isl - prefix)) * pow2(1074)
                &&& batch_size * (isl - prefix) <= 0x20_0000_0000_0000 ==> x.value() == (batch_size
                    * (isl - prefix)) * pow2(1074)
                &&& match found {
                    Ok(raw) => if raw.nan() || raw.value() <= 0 {
                        time.bits == 0
                    } else {
                        time == raw
                    },
                    Err(_) => time.bits == 0,
                }
            },
{
    law_interpolated_prefill(model, batch_size, isl, prefix, time);
    let b = ratio(batch_size as nat, 1);
    let n = ratio((isl - prefix) as nat, 1);
    let k = ratio(prefix as nat, 1);
    let answer = choose|answer: Result<Double, InterpolationError>|
        {
            &&& #[trigger] (*model->prefill_interp).may_answer(b, n, k, answer)
            &&& match answer {
                Ok(raw) => if raw.nan() || raw.value() <= 0 {
                    time.bits == 0
                } else {
                    time == raw
                },
                Err(_) => time.bits == 0,
            }
        };
    assert((*model->prefill_interp).may_answer(b, n, k, answer));
    law_legacy_surface_answers(table, b, n, k, answer);
    let x = product(b, n);
    let found = choose|found: Result<Double, InterpolateError>|
        {
            &&& #[trigger] call_ensures(T::interp_scalar, (&table.inner, x), found)
            &&& match found {
                Ok(raw) => answer == Ok::<Double, InterpolationError>(raw),
                Err(e) => answer == Err::<Double, InterpolationError>(InterpolationError::Table(e)),
            }
        };
    assert(call_ensures(T::interp_scalar, (&table.inner, x), found));
    law_total_near(batch_size as nat, (isl - prefix) as nat);
}

/// The coordinate of a legacy profile is the batch size times the fresh tokens:
/// exactly up to two to the power of 53, and to one part in two to the power of 50
/// above.
pub proof fn law_total_near(batch_size: nat, fresh: nat)
    requires
        0 < batch_size <= u64::MAX,
        0 < fresh <= u64::MAX,
    ensures
        ({
            let x = product(ratio(batch_size, 1), ratio(fresh, 1));
            let total = (batch_size * fresh) * pow2(1074);
            &&& x.finite()
            &&& 0x4_0000_0000_0000 * abs(x.value() - total) <= total
            &&& batch_size * fresh <= 0x20_0000_0000_0000 ==> x.value() == total
        }),
{
    let (b, n) = (ratio(batch_size, 1), ratio(fresh, 1));
    let p = pow2(1074) as int;
    let (bv, nv) = (b.value(), n.value());
    let (m1, m2) = (batch_size * p, fresh * p);
    lemma_pow2_pos(1074);
    law_ratio_near(batch_size, 1);
    law_ratio_near(fresh, 1);
    assert(bv * 1 == bv && nv * 1 == nv);
    lemma_product_of_counts(bv, nv, batch_size as int, fresh as int);
    lemma_product_near(b, n);
    let x = product(b, n).value();
    let k = 0x20_0000_0000_0000int;
    let total = (batch_size * fresh) * p;
    assert(m1 * m2 == total * p && total >= p) by (nonlinear_arith)
        requires
            m1 == batch_size * p,
            m2 == fresh * p,
            total == (batch_size * fresh) * p,
            batch_size >= 1,
            fresh >= 1,
            p > 0,
    {
        assert(batch_size * fresh >= 1);
    }
    let z = x - total;
    assert(z * p == x * p - total * p) by (nonlinear_arith)
        requires
            z == x - total,
    ;
    lemma_abs_product(z, p);
    let u = abs(z) as int;
    lemma2_to64_rest();
    lemma_pow2_strictly_increases(63, 1074);
    assert(k * p <= total * p) by (nonlinear_arith)
        requires
            k <= p,
            total >= p,
            p > 0,
    ;
    // The errors of the counts, and that of their product.
    assert(k * (u * p) <= 6 * (total * p));
    assert(k * u <= 6 * total) by (nonlinear_arith)
        requires
            k * (u * p) <= 6 * (total * p),
            p > 0,
    {
        assert(k * (u * p) == (k * u) * p);
        assert(6 * (total * p) == (6 * total) * p);
    }
    if batch_size * fresh <= 0x20_0000_0000_0000 {
        assert(batch_size <= batch_size * fresh && fresh <= batch_size * fresh)
            by (nonlinear_arith)
            requires
                batch_size > 0,
                fresh > 0,
        ;
        law_integer_exact(batch_size);
        law_integer_exact(fresh);
        law_legacy_total(batch_size, fresh);
        law_integer_exact(batch_size * fresh);
    }
}

/// The product of two rounded counts.
proof fn lemma_product_of_counts(bv: int, nv: int, b: int, n: int)
    requires
        0 < b <= u64::MAX,
        0 < n <= u64::MAX,
        0x20_0000_0000_0000 * abs(bv - b * pow2(1074)) <= b * pow2(1074),
        0x20_0000_0000_0000 * abs(nv - n * pow2(1074)) <= n * pow2(1074),
    ensures
        ({
            let t = (b * pow2(1074)) * (n * pow2(1074));
            &&& 0 <= bv * nv <= 2 * t
            &&& 0x20_0000_0000_0000 * abs(bv * nv - t) <= 3 * t
            &&& bv * nv <= pow2(1074) * pow2(2096)
        }),
{
    let k = 0x20_0000_0000_0000int;
    let p = pow2(1074) as int;
    let (m1, m2) = (b * p, n * p);
    let t = m1 * m2;
    lemma2_to64();
    lemma_pow2_pos(1074);
    lemma_pow2_adds(64, 1074);
    lemma_pow2_adds(1138, 1138);
    lemma_pow2_adds(1, 2276);
    lemma_pow2_adds(1074, 2096);
    lemma_pow2_strictly_increases(2277, 3170);
    assert(0 < m1 <= pow2(1138) && 0 < m2 <= pow2(1138)) by (nonlinear_arith)
        requires
            m1 == b * p,
            m2 == n * p,
            0 < b <= pow2(64),
            0 < n <= pow2(64),
            p > 0,
            pow2(1138) == pow2(64) * p,
    ;
    assert(0 < t <= pow2(1138) * pow2(1138)) by (nonlinear_arith)
        requires
            t == m1 * m2,
            0 < m1 <= pow2(1138),
            0 < m2 <= pow2(1138),
    ;
    assert(0 <= nv <= 2 * m2 && 0 <= bv);
    let (e1, e2) = (bv - m1, nv - m2);
    assert(bv * nv - t == e1 * nv + m1 * e2) by (nonlinear_arith)
        requires
            t == m1 * m2,
            e1 == bv - m1,
            e2 == nv - m2,
    ;
    lemma_abs_product(e1, nv);
    lemma_abs_product(m1, e2);
    let (u1, u2) = (abs(e1) as int, abs(e2) as int);
    assert(k * (u1 * nv) <= 2 * t) by (nonlinear_arith)
        requires
            k * u1 <= m1,
            0 <= nv <= 2 * m2,
            t == m1 * m2,
            u1 >= 0,
            m1 > 0,
    {
        assert((k * u1) * nv <= m1 * nv);
        assert(m1 * nv <= m1 * (2 * m2));
    }
    assert(k * (m1 * u2) <= t) by (nonlinear_arith)
        requires
            k * u2 <= m2,
            m1 > 0,
            t == m1 * m2,
    {
        assert(m1 * (k * u2) <= m1 * m2);
    }
    assert(bv * nv >= 0) by (nonlinear_arith)
        requires
            bv >= 0,
            nv >= 0,
    ;
}

} // verus!
