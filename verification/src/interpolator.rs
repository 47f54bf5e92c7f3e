//! What a performance model asks of its sources of timings.

use ndarray_interp::InterpolateError;
use vstd::prelude::*;

use crate::axis::InterpolationError;
use crate::double::Double;

verus! {

/// A prefill timing surface, legacy or batch-aware.
pub trait PrefillInterpolator: Send + Sync {
    /// Whether the surface may give an answer at a point: any answer, unless the
    /// surface says otherwise.
    open spec fn may_answer(
        &self,
        batch_size: Double,
        new_tokens_per_request: Double,
        prefix: Double,
        answer: Result<Double, InterpolationError>,
    ) -> bool {
        true
    }

    /// The prefill time in milliseconds.
    fn interp(&self, batch_size: Double, new_tokens_per_request: Double, prefix: Double) -> (r:
        Result<Double, InterpolationError>)
        ensures
            self.may_answer(batch_size, new_tokens_per_request, prefix, r),
    ;
}

/// A one-dimensional prefill timing table.
pub trait PrefillTable: Send + Sync {
    /// The prefill time in milliseconds of a total number of new tokens.
    fn interp_scalar(&self, x: Double) -> Result<Double, InterpolateError>;
}

/// A two-dimensional decode timing surface.
pub trait DecodeInterpolator: Send + Sync {
    /// The decode time in milliseconds.
    fn interp(&self, x: Double, y: Double) -> Result<Double, InterpolateError>;
}

/// A timing service that is asked directly.
pub trait AicCallback: Send + Sync {
    /// Predicts the prefill latency in milliseconds.
    fn predict_prefill(&self, batch_size: usize, effective_isl: usize, prefix: usize) -> Double;

    /// Predicts the decode (generation) latency in milliseconds.
    fn predict_decode(&self, batch_size: usize, isl: usize, osl: usize) -> Double;
}

} // verus!
