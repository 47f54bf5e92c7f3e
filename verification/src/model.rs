//! The performance model: prefill and decode times of a batch.
//!
//! A model is one of three kinds:
//! 1. Polynomial: hardcoded formulas, the default.
//! 2. Interpolated: grids of profiler data.
//! 3. Aiconfigurator: a timing service that is asked for each prediction.

use ndarray_interp::InterpolateError;
use std::sync::Arc;
use vstd::arithmetic::power2::pow2;
use vstd::prelude::*;

use crate::axis::InterpolationError;
use crate::double::{larger, lemma_one, opposite, product, quotient, ratio, signed, sum, Double};
use crate::interpolator::{AicCallback, DecodeInterpolator, PrefillInterpolator};

verus! {

/// Performance model for predicting prefill and decode timing.
pub enum PerfModel<P, D, C> {
    /// Default polynomial-based model using hardcoded formulas.
    Polynomial,
    /// Interpolation-based model using profiler data.
    /// Decode axes: (active_kv_tokens, context_length).
    Interpolated { prefill_interp: Arc<P>, decode_interp: Arc<D> },
    /// Direct calls of a timing service.
    /// Passes the reduced prefill inputs (batch_size, effective_isl, prefix).
    Aiconfigurator { callback: Arc<C> },
}

/// Zero milliseconds.
pub open spec fn no_time() -> Double {
    signed(false, 0)
}

/// One millisecond, two to the power of 1074 units.
pub open spec fn one_millisecond() -> Double {
    ratio(1, 1)
}

/// The polynomial prefill time of a number of tokens:
/// 4.209989e-07 times the square, plus 1.518344e-02 times the number, plus
/// 16.50142.
pub open spec fn prefill_formula(tokens: nat) -> Double {
    let t = ratio(tokens, 1);
    sum(
        sum(
            product(ratio(4209989, 10_000_000_000_000), product(t, t)),
            product(ratio(1518344, 100_000_000), t),
        ),
        ratio(1650142, 100_000),
    )
}

/// The share of the KV tokens that is active: all of them where there are none.
pub open spec fn active_share(active_kv_tokens: nat, total_kv_tokens: nat) -> Double {
    if total_kv_tokens > 0 {
        quotient(ratio(active_kv_tokens, 1), ratio(total_kv_tokens, 1))
    } else {
        ratio(1, 1)
    }
}

/// The polynomial decode time at a share of active KV tokens:
/// -25.74 times the square, plus 54.01 times the share, plus 5.74.
pub open spec fn decode_formula(share: Double) -> Double {
    sum(
        sum(
            product(opposite(ratio(2574, 100)), product(share, share)),
            product(ratio(5401, 100), share),
        ),
        ratio(574, 100),
    )
}

/// The time that an interpolation stands for: none where it failed.
pub open spec fn time_or_none<E>(interpolated: Result<Double, E>) -> Double {
    match interpolated {
        Ok(time) => time,
        Err(_) => no_time(),
    }
}

/// The tokens per request that are not cached.
pub open spec fn fresh_tokens(isl: usize, prefix: usize) -> usize {
    if isl > prefix {
        (isl - prefix) as usize
    } else {
        0
    }
}

/// Evaluates the polynomial prefill formula.
pub fn prefill_polynomial(tokens: usize) -> (time: Double)
    ensures
        time == prefill_formula(tokens as nat),
{
    let t: Double = Double::from_usize(tokens);
    let quadratic: Double = Double::from_ratio(4209989, 10_000_000_000_000).times(t.times(t));
    let linear: Double = Double::from_ratio(1518344, 100_000_000).times(t);
    quadratic.plus(linear).plus(Double::from_ratio(1650142, 100_000))
}

/// The share of the KV tokens that is active.
pub fn kv_share(active_kv_tokens: usize, total_kv_tokens: usize) -> (share: Double)
    ensures
        share == active_share(active_kv_tokens as nat, total_kv_tokens as nat),
{
    if total_kv_tokens > 0 {
        Double::from_usize(active_kv_tokens).over(Double::from_usize(total_kv_tokens))
    } else {
        Double::from_ratio(1, 1)
    }
}

/// Evaluates the polynomial decode formula.
pub fn decode_polynomial(share: Double) -> (time: Double)
    ensures
        time == decode_formula(share),
{
    let quadratic: Double = Double::from_ratio(2574, 100).negate().times(share.times(share));
    let linear: Double = Double::from_ratio(5401, 100).times(share);
    quadratic.plus(linear).plus(Double::from_ratio(574, 100))
}

/// The time of an interpolation, zero where it failed.
pub fn interpolated_time<E>(interpolated: Result<Double, E>) -> (time: Double)
    ensures
        time == time_or_none(interpolated),
{
    match interpolated {
        Ok(time) => time,
        Err(_) => Double::zero(),
    }
}

/// A prefill time is never negative.
pub fn prefill_floor(time: Double) -> (r: Double)
    ensures
        r == larger(time, no_time()),
        !r.nan(),
        r.value() >= 0,
{
    proof {
        crate::rounding::lemma_units_zero();
    }
    time.max(Double::zero())
}

/// Token-emitting decode steps do not collapse onto the same timestamp: a decode
/// time is at least one millisecond.
pub fn decode_floor(time: Double) -> (r: Double)
    ensures
        r == larger(time, one_millisecond()),
        !r.nan(),
        r.value() >= pow2(1074),
{
    proof {
        lemma_one();
    }
    time.max(Double::from_ratio(1, 1))
}

impl<P, D, C> Default for PerfModel<P, D, C> {
    fn default() -> (m: Self)
        ensures
            m is Polynomial,
    {
        PerfModel::Polynomial
    }
}

impl<P, D, C> Clone for PerfModel<P, D, C> {
    fn clone(&self) -> (m: Self)
        ensures
            m == *self,
    {
        match self {
            PerfModel::Polynomial => PerfModel::Polynomial,
            PerfModel::Interpolated { prefill_interp, decode_interp } => PerfModel::Interpolated {
                prefill_interp: Arc::clone(prefill_interp),
                decode_interp: Arc::clone(decode_interp),
            },
            PerfModel::Aiconfigurator { callback } => PerfModel::Aiconfigurator {
                callback: Arc::clone(callback),
            },
        }
    }
}

impl<P, D, C> PerfModel<P, D, C> {
    /// How the model is shown in diagnostics.
    pub open spec fn shown(self) -> Seq<char> {
        match self {
            PerfModel::Polynomial => "PerfModel::Polynomial"@,
            PerfModel::Interpolated { .. } => "PerfModel::Interpolated { .. }"@,
            PerfModel::Aiconfigurator { .. } => "PerfModel::Aiconfigurator"@,
        }
    }

    /// The text under which the model is shown in diagnostics.
    pub fn debug_text(&self) -> (text: String)
        ensures
            text@ == self.shown(),
    {
        match self {
            PerfModel::Polynomial => "PerfModel::Polynomial".to_owned(),
            PerfModel::Interpolated { .. } => "PerfModel::Interpolated { .. }".to_owned(),
            PerfModel::Aiconfigurator { .. } => "PerfModel::Aiconfigurator".to_owned(),
        }
    }
}

impl<P: PrefillInterpolator, D: DecodeInterpolator, C: AicCallback> PerfModel<P, D, C> {
    /// Creates an Aiconfigurator model from a callback.
    pub fn from_aic_callback(callback: Arc<C>) -> (m: Self)
        ensures
            m == (PerfModel::<P, D, C>::Aiconfigurator { callback }),
    {
        PerfModel::Aiconfigurator { callback }
    }

    /// Whether `time` is what the model's source of timings gives for the prefill
    /// of a batch with fresh tokens.
    pub open spec fn prefill_source(
        self,
        batch_size: usize,
        fresh: usize,
        prefix: usize,
        time: Double,
    ) -> bool {
        match self {
            PerfModel::Polynomial => time == prefill_formula((batch_size * fresh) as nat),
            PerfModel::Interpolated { prefill_interp, .. } => exists|
                interpolated: Result<Double, InterpolationError>,
            |
                {
                    &&& #[trigger] prefill_interp.may_answer(
                        ratio(batch_size as nat, 1),
                        ratio(fresh as nat, 1),
                        ratio(prefix as nat, 1),
                        interpolated,
                    )
                    &&& time == time_or_none(interpolated)
                },
            PerfModel::Aiconfigurator { callback } => call_ensures(
                C::predict_prefill,
                (&*callback, batch_size, fresh, prefix),
                time,
            ),
        }
    }

    /// Whether `time` is a prefill time of a batch: none where nothing is fresh, and
    /// what the model's source gives, or zero if that is more, elsewhere.
    pub open spec fn prefill_outcome(
        self,
        batch_size: usize,
        isl: usize,
        prefix: usize,
        time: Double,
    ) -> bool {
        if batch_size == 0 || isl <= prefix {
            time == no_time()
        } else {
            exists|raw: Double|
                {
                    &&& #[trigger] self.prefill_source(
                        batch_size,
                        fresh_tokens(isl, prefix),
                        prefix,
                        raw,
                    )
                    &&& time == larger(raw, no_time())
                }
        }
    }

    /// Predicts the prefill time in milliseconds.
    ///
    /// Callers always pass all parameters; each variant uses what it needs:
    /// - Polynomial: uses total new tokens across the batch.
    /// - Interpolated: legacy profiles use total new tokens; batch-aware
    ///   profiles use batch size, fresh tokens/request, and prefix tokens/request.
    /// - Aiconfigurator: passes (batch_size, isl - prefix, prefix) to the service.
    pub fn predict_prefill_time(&self, batch_size: usize, isl: usize, prefix: usize) -> (time:
        Double)
        requires
            self is Polynomial ==> batch_size * fresh_tokens(isl, prefix) <= usize::MAX,
        ensures
            self.prefill_outcome(batch_size, isl, prefix, time),
            !time.nan(),
            time.value() >= 0,
    {
        proof {
            crate::rounding::lemma_units_zero();
        }
        let fresh: usize = isl.saturating_sub(prefix);
        assert(fresh == fresh_tokens(isl, prefix));
        if batch_size == 0 || fresh == 0 {
            return Double::zero();
        }
        let raw: Double = match self {
            PerfModel::Polynomial => {
                // Total tokens across the batch: they are processed in parallel.
                prefill_polynomial(batch_size * fresh)
            },
            PerfModel::Interpolated { prefill_interp, .. } => interpolated_time(
                prefill_interp.interp(
                    Double::from_usize(batch_size),
                    Double::from_usize(fresh),
                    Double::from_usize(prefix),
                ),
            ),
            PerfModel::Aiconfigurator { callback } => callback.predict_prefill(
                batch_size,
                fresh,
                prefix,
            ),
        };
        assert(self.prefill_source(batch_size, fresh, prefix, raw));
        prefill_floor(raw)
    }

    /// Whether `time` is what the model's source of timings gives for the decode
    /// step of a batch.
    pub open spec fn decode_source(
        self,
        batch_size: usize,
        active_kv_tokens: usize,
        context_length: usize,
        total_kv_tokens: usize,
        time: Double,
    ) -> bool {
        match self {
            PerfModel::Polynomial => time == decode_formula(
                active_share(active_kv_tokens as nat, total_kv_tokens as nat),
            ),
            PerfModel::Interpolated { decode_interp, .. } => exists|
                interpolated: Result<Double, InterpolateError>,
            |
                {
                    &&& #[trigger] call_ensures(
                        D::interp,
                        (
                            &*decode_interp,
                            ratio(active_kv_tokens as nat, 1),
                            ratio(context_length as nat, 1),
                        ),
                        interpolated,
                    )
                    &&& time == time_or_none(interpolated)
                },
            PerfModel::Aiconfigurator { callback } => call_ensures(
                C::predict_decode,
                (&*callback, batch_size, context_length, 2usize),
                time,
            ),
        }
    }

    /// Whether `time` is a decode time of a batch: none for an empty batch, and what
    /// the model's source gives, or one millisecond if that is more, elsewhere.
    pub open spec fn decode_outcome(
        self,
        batch_size: usize,
        active_kv_tokens: usize,
        context_length: usize,
        total_kv_tokens: usize,
        time: Double,
    ) -> bool {
        if batch_size == 0 {
            time == no_time()
        } else {
            exists|raw: Double|
                {
                    &&& #[trigger] self.decode_source(
                        batch_size,
                        active_kv_tokens,
                        context_length,
                        total_kv_tokens,
                        raw,
                    )
                    &&& time == larger(raw, one_millisecond())
                }
        }
    }

    /// Predicts the decode time in milliseconds.
    ///
    /// Callers always pass all parameters; each variant uses what it needs:
    /// - Polynomial: uses (active_kv_tokens, total_kv_tokens) as utilization.
    /// - Interpolated: uses (active_kv_tokens, context_length).
    /// - Aiconfigurator: uses (batch_size, context_length).
    pub fn predict_decode_time(
        &self,
        batch_size: usize,
        active_kv_tokens: usize,
        context_length: usize,
        total_kv_tokens: usize,
    ) -> (time: Double)
        ensures
            self.decode_outcome(
                batch_size,
                active_kv_tokens,
                context_length,
                total_kv_tokens,
                time,
            ),
            !time.nan(),
            batch_size > 0 ==> time.value() >= pow2(1074),
    {
        if batch_size == 0 {
            return Double::zero();
        }
        let raw: Double = match self {
            PerfModel::Polynomial => decode_polynomial(
                kv_share(active_kv_tokens, total_kv_tokens),
            ),
            PerfModel::Interpolated { decode_interp, .. } => interpolated_time(
                decode_interp.interp(
                    Double::from_usize(active_kv_tokens),
                    Double::from_usize(context_length),
                ),
            ),
            PerfModel::Aiconfigurator { callback } => callback.predict_decode(
                batch_size,
                context_length,
                2,
            ),
        };
        assert(self.decode_source(
            batch_size,
            active_kv_tokens,
            context_length,
            total_kv_tokens,
            raw,
        ));
        decode_floor(raw)
    }
}

} // verus!
