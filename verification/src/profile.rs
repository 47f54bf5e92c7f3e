//! Loading a profile: which arrays of an archive it is made of, what they have to
//! satisfy, and the model that comes of them.
//!
//! Reading an archive and building the tables of a legacy profile are not done
//! here. A [`LoadState`] says what is to be done next, and [`advance`] takes what
//! came of it to the next state, to the finished model, or to the reason why the
//! profile is refused.

use ndarray_interp::InterpolateError;
use std::sync::Arc;
use vstd::prelude::*;

use crate::axis::{axis_error, valid_axis, validate_interpolation_axis, InterpolationError};
use crate::double::{product, Double};
use crate::interpolator::{AicCallback, DecodeInterpolator, PrefillInterpolator, PrefillTable};
use crate::model::PerfModel;
use crate::npz::{is_name_of, npz_has_name};
use crate::surface::{Grid, PrefillInterp3D};

verus! {

/// The arrays that profiles are made of.
#[derive(Clone, Copy, Debug, PartialEq, Eq, Structural)]
pub enum ArrayName {
    PrefillBatchSize,
    PrefillNewTokensPerRequest,
    PrefillKvReadTokensPerRequest,
    PrefillTimeMs,
    PrefillIsl,
    PrefillTtftMs,
    DecodeActiveKvTokens,
    DecodeContextLength,
    DecodeItl,
}

impl ArrayName {
    /// The name in the archive.
    pub open spec fn name(self) -> Seq<char> {
        match self {
            ArrayName::PrefillBatchSize => "prefill_batch_size"@,
            ArrayName::PrefillNewTokensPerRequest => "prefill_new_tokens_per_request"@,
            ArrayName::PrefillKvReadTokensPerRequest => "prefill_kv_read_tokens_per_request"@,
            ArrayName::PrefillTimeMs => "prefill_time_ms"@,
            ArrayName::PrefillIsl => "prefill_isl"@,
            ArrayName::PrefillTtftMs => "prefill_ttft_ms"@,
            ArrayName::DecodeActiveKvTokens => "decode_active_kv_tokens"@,
            ArrayName::DecodeContextLength => "decode_context_length"@,
            ArrayName::DecodeItl => "decode_itl"@,
        }
    }

    /// The name in the archive.
    pub fn text(self) -> (name: &'static str)
        ensures
            name@ == self.name(),
    {
        match self {
            ArrayName::PrefillBatchSize => "prefill_batch_size",
            ArrayName::PrefillNewTokensPerRequest => "prefill_new_tokens_per_request",
            ArrayName::PrefillKvReadTokensPerRequest => "prefill_kv_read_tokens_per_request",
            ArrayName::PrefillTimeMs => "prefill_time_ms",
            ArrayName::PrefillIsl => "prefill_isl",
            ArrayName::PrefillTtftMs => "prefill_ttft_ms",
            ArrayName::DecodeActiveKvTokens => "decode_active_kv_tokens",
            ArrayName::DecodeContextLength => "decode_context_length",
            ArrayName::DecodeItl => "decode_itl",
        }
    }
}

/// Why a profile is refused.
#[derive(Debug)]
pub enum LoadError {
    /// The prefill times do not have one value for each combination of points.
    GridShape { values: (usize, usize, usize), axes: (usize, usize, usize) },
    /// A prefill axis cannot be interpolated on.
    InvalidAxis { array: ArrayName, cause: InterpolationError },
    /// A prefill time is negative, infinite or not a number.
    InvalidTimes,
    /// The arrays of a legacy prefill profile differ in length.
    LegacyLength { isl: usize, ttft: usize },
    /// The decode times do not have one value for each combination of points.
    DecodeShape { rows: usize, cols: usize, active_kv: usize, context: usize },
}

/// The coordinate at which a legacy prefill table is read: the total new tokens
/// of the batch.
pub fn legacy_coordinate(batch_size: Double, new_tokens_per_request: Double) -> (x: Double)
    ensures
        x == product(batch_size, new_tokens_per_request),
{
    batch_size.times(new_tokens_per_request)
}

/// What a table's answer is as an answer of a surface: its errors are kept.
pub open spec fn table_answer(answer: Result<Double, InterpolateError>) -> Result<
    Double,
    InterpolationError,
> {
    match answer {
        Ok(time) => Ok(time),
        Err(e) => Err(InterpolationError::Table(e)),
    }
}

/// A legacy prefill surface: a table of times by total new tokens. The prefix has
/// no part in it.
pub struct PrefillInterp1D<T> {
    pub inner: T,
}

impl<T: PrefillTable> PrefillInterpolator for PrefillInterp1D<T> {
    /// Any answer of the table at the total of new tokens.
    open spec fn may_answer(
        &self,
        batch_size: Double,
        new_tokens_per_request: Double,
        prefix: Double,
        answer: Result<Double, InterpolationError>,
    ) -> bool {
        exists|found: Result<Double, InterpolateError>|
            {
                &&& #[trigger] call_ensures(
                    T::interp_scalar,
                    (&self.inner, product(batch_size, new_tokens_per_request)),
                    found,
                )
                &&& answer == table_answer(found)
            }
    }

    fn interp(
        &self,
        batch_size: Double,
        new_tokens_per_request: Double,
        _prefix: Double,
    ) -> (r: Result<Double, InterpolationError>) {
        match self.inner.interp_scalar(legacy_coordinate(batch_size, new_tokens_per_request)) {
            Ok(time) => Ok(time),
            Err(e) => Err(InterpolationError::Table(e)),
        }
    }
}

/// A prefill profile in one of the two layouts.
pub enum PrefillProfile<T> {
    /// Times by total new tokens, in a table built elsewhere.
    Legacy(PrefillInterp1D<T>),
    /// Times by batch size, fresh tokens and prefix tokens per request.
    BatchAware(PrefillInterp3D),
}

impl<T: PrefillTable> PrefillInterpolator for PrefillProfile<T> {
    open spec fn may_answer(
        &self,
        batch_size: Double,
        new_tokens_per_request: Double,
        prefix: Double,
        answer: Result<Double, InterpolationError>,
    ) -> bool {
        match *self {
            PrefillProfile::Legacy(table) => table.may_answer(
                batch_size,
                new_tokens_per_request,
                prefix,
                answer,
            ),
            PrefillProfile::BatchAware(surface) => answer == surface.time_at(
                batch_size,
                new_tokens_per_request,
                prefix,
            ),
        }
    }

    fn interp(
        &self,
        batch_size: Double,
        new_tokens_per_request: Double,
        prefix: Double,
    ) -> (r: Result<Double, InterpolationError>) {
        match self {
            PrefillProfile::Legacy(table) => table.interp(
                batch_size,
                new_tokens_per_request,
                prefix,
            ),
            PrefillProfile::BatchAware(surface) => surface.interp(
                batch_size,
                new_tokens_per_request,
                prefix,
            ),
        }
    }
}

/// What is to be done next to load a profile.
pub enum LoadState<T> {
    /// Read the arrays of the batch-aware layout.
    BatchAwareArrays,
    /// Read the arrays of the legacy layout.
    LegacyArrays,
    /// Build the table of the legacy layout from its arrays.
    LegacyTable,
    /// Read the decode arrays.
    DecodeArrays { prefill: PrefillProfile<T> },
    /// Build the decode table from its arrays.
    DecodeTable { prefill: PrefillProfile<T> },
}

/// What came of doing it.
pub enum LoadEvent<T, D> {
    /// The arrays of the batch-aware layout.
    BatchAwareArrays {
        batch_size: Vec<Double>,
        new_tokens_per_request: Vec<Double>,
        kv_read_tokens_per_request: Vec<Double>,
        values_ms: Grid,
    },
    /// The lengths of the arrays of the legacy layout.
    LegacyArrays { isl: usize, ttft: usize },
    /// The table of the legacy layout.
    LegacyTable { legacy: T },
    /// The extents of the decode arrays.
    DecodeArrays { active_kv: usize, context: usize, rows: usize, cols: usize },
    /// The decode table.
    DecodeTable { decode: D },
}

/// How far loading has come.
pub enum LoadProgress<T, D, C> {
    /// More is to be done.
    Next { state: LoadState<T> },
    /// The model is complete.
    Ready { model: PerfModel<PrefillProfile<T>, D, C> },
}

/// Whether an event answers what a state asks for.
pub open spec fn answers<T, D>(state: LoadState<T>, event: LoadEvent<T, D>) -> bool {
    match state {
        LoadState::BatchAwareArrays => event is BatchAwareArrays,
        LoadState::LegacyArrays => event is LegacyArrays,
        LoadState::LegacyTable => event is LegacyTable,
        LoadState::DecodeArrays { .. } => event is DecodeArrays,
        LoadState::DecodeTable { .. } => event is DecodeTable,
    }
}

/// Whether all times are finite and non-negative.
pub open spec fn all_durations(times: Seq<Double>) -> bool {
    forall|i: int|
        0 <= i < times.len() ==> (#[trigger] times[i]).finite() && times[i].value() >= 0
}

/// Whether a surface has passed the checks of a profile: valid axes, one time for
/// each combination of their points, and no time that is not a duration.
pub open spec fn measured(surface: PrefillInterp3D) -> bool {
    &&& valid_axis(surface.batch_axis())
    &&& valid_axis(surface.fresh_axis())
    &&& valid_axis(surface.kv_axis())
    &&& surface.times().extents().0 == surface.batch_axis().len()
    &&& surface.times().extents().1 == surface.fresh_axis().len()
    &&& surface.times().extents().2 == surface.kv_axis().len()
    &&& surface.times().elements().len() == surface.batch_axis().len()
        * surface.fresh_axis().len() * surface.kv_axis().len()
    &&& all_durations(surface.times().elements())
}

/// What is wrong with the arrays of a batch-aware prefill profile, if anything
/// is: first the extents, then the axes in their order, then the times.
pub open spec fn batch_aware_error(
    batch_size: Seq<Double>,
    new_tokens_per_request: Seq<Double>,
    kv_read_tokens_per_request: Seq<Double>,
    values_ms: Grid,
) -> Option<LoadError> {
    let axes = (
        batch_size.len() as usize,
        new_tokens_per_request.len() as usize,
        kv_read_tokens_per_request.len() as usize,
    );
    if values_ms.extents() != axes {
        Some(LoadError::GridShape { values: values_ms.extents(), axes })
    } else if axis_error(batch_size) is Some {
        Some(
            LoadError::InvalidAxis {
                array: ArrayName::PrefillBatchSize,
                cause: axis_error(batch_size)->0,
            },
        )
    } else if axis_error(new_tokens_per_request) is Some {
        Some(
            LoadError::InvalidAxis {
                array: ArrayName::PrefillNewTokensPerRequest,
                cause: axis_error(new_tokens_per_request)->0,
            },
        )
    } else if axis_error(kv_read_tokens_per_request) is Some {
        Some(
            LoadError::InvalidAxis {
                array: ArrayName::PrefillKvReadTokensPerRequest,
                cause: axis_error(kv_read_tokens_per_request)->0,
            },
        )
    } else if !all_durations(values_ms.elements()) {
        Some(LoadError::InvalidTimes)
    } else {
        None
    }
}

/// The arrays of a batch-aware profile are accepted if and only if there is one time
/// for each combination of axis points, all three axes are valid, and all times are
/// finite and not negative. What is told of arrays that are refused is the first of
/// these that fails, and of the axes the first one that is not valid.
pub proof fn law_batch_aware_accepted(
    batch_size: Seq<Double>,
    new_tokens_per_request: Seq<Double>,
    kv_read_tokens_per_request: Seq<Double>,
    values_ms: Grid,
)
    requires
        batch_size.len() <= usize::MAX,
        new_tokens_per_request.len() <= usize::MAX,
        kv_read_tokens_per_request.len() <= usize::MAX,
    ensures
        ({
            let e = batch_aware_error(
                batch_size,
                new_tokens_per_request,
                kv_read_tokens_per_request,
                values_ms,
            );
            let matching = values_ms.extents().0 == batch_size.len() && values_ms.extents().1
                == new_tokens_per_request.len() && values_ms.extents().2
                == kv_read_tokens_per_request.len();
            let durations = forall|i: int|
                0 <= i < values_ms.elements().len() ==> (#[trigger] values_ms.elements()[i]).finite()
                    && values_ms.elements()[i].value() >= 0;
            &&& e is None <==> matching && valid_axis(batch_size) && valid_axis(
                new_tokens_per_request,
            ) && valid_axis(kv_read_tokens_per_request) && durations
            &&& !matching ==> e == Some(
                LoadError::GridShape {
                    values: values_ms.extents(),
                    axes: (
                        batch_size.len() as usize,
                        new_tokens_per_request.len() as usize,
                        kv_read_tokens_per_request.len() as usize,
                    ),
                },
            )
            &&& matching && !valid_axis(batch_size) ==> e == Some(
                LoadError::InvalidAxis {
                    array: ArrayName::PrefillBatchSize,
                    cause: if batch_size.len() < 2 {
                        InterpolationError::AxisTooShort
                    } else {
                        InterpolationError::AxisNotIncreasing
                    },
                },
            )
            &&& matching && valid_axis(batch_size) && !valid_axis(new_tokens_per_request) ==> e
                == Some(
                LoadError::InvalidAxis {
                    array: ArrayName::PrefillNewTokensPerRequest,
                    cause: if new_tokens_per_request.len() < 2 {
                        InterpolationError::AxisTooShort
                    } else {
                        InterpolationError::AxisNotIncreasing
                    },
                },
            )
            &&& matching && valid_axis(batch_size) && valid_axis(new_tokens_per_request)
                && !valid_axis(kv_read_tokens_per_request) ==> e == Some(
                LoadError::InvalidAxis {
                    array: ArrayName::PrefillKvReadTokensPerRequest,
                    cause: if kv_read_tokens_per_request.len() < 2 {
                        InterpolationError::AxisTooShort
                    } else {
                        InterpolationError::AxisNotIncreasing
                    },
                },
            )
            &&& matching && valid_axis(batch_size) && valid_axis(new_tokens_per_request)
                && valid_axis(kv_read_tokens_per_request) && !durations ==> e == Some(
                LoadError::InvalidTimes,
            )
        }),
{
}

/// Whether all times are finite and non-negative.
fn durations_only(times: &Vec<Double>) -> (r: bool)
    ensures
        r == all_durations(times@),
{
    let zero: Double = Double::zero();
    proof {
        crate::rounding::lemma_units_zero();
    }
    let mut i: usize = 0;
    while i < times.len()
        invariant
            i <= times@.len(),
            !zero.nan(),
            zero.value() == 0,
            forall|j: int|
                0 <= j < i ==> (#[trigger] times@[j]).finite() && times@[j].value() >= 0,
        decreases times@.len() - i,
    {
        if !times[i].is_finite() || !zero.at_most(times[i]) {
            return false;
        }
        i = i + 1;
    }
    true
}

/// Checks one axis of a batch-aware prefill profile.
fn check_axis(axis: &Vec<Double>, array: ArrayName) -> (r: Result<(), LoadError>)
    ensures
        r == match axis_error(axis@) {
            Some(cause) => Err::<(), LoadError>(LoadError::InvalidAxis { array, cause }),
            None => Ok(()),
        },
{
    match validate_interpolation_axis(axis.as_slice()) {
        Ok(()) => Ok(()),
        Err(cause) => Err(LoadError::InvalidAxis { array, cause }),
    }
}

/// The surface of a batch-aware prefill profile, or why its arrays are refused.
pub fn batch_aware_prefill(
    batch_size: Vec<Double>,
    new_tokens_per_request: Vec<Double>,
    kv_read_tokens_per_request: Vec<Double>,
    values_ms: Grid,
) -> (r: Result<PrefillInterp3D, LoadError>)
    ensures
        match batch_aware_error(
            batch_size@,
            new_tokens_per_request@,
            kv_read_tokens_per_request@,
            values_ms,
        ) {
            Some(e) => r == Err::<PrefillInterp3D, LoadError>(e),
            None => r matches Ok(surface) && {
                &&& surface.batch_axis() == batch_size@
                &&& surface.fresh_axis() == new_tokens_per_request@
                &&& surface.kv_axis() == kv_read_tokens_per_request@
                &&& surface.times() == values_ms
                &&& measured(surface)
            },
        },
        r is Ok <==> {
            &&& values_ms.extents().0 == batch_size@.len()
            &&& values_ms.extents().1 == new_tokens_per_request@.len()
            &&& values_ms.extents().2 == kv_read_tokens_per_request@.len()
            &&& valid_axis(batch_size@)
            &&& valid_axis(new_tokens_per_request@)
            &&& valid_axis(kv_read_tokens_per_request@)
            &&& forall|i: int|
                0 <= i < values_ms.elements().len() ==> (#[trigger] values_ms.elements()[i]).finite()
                    && values_ms.elements()[i].value() >= 0
        },
{
    let axes: (usize, usize, usize) = (
        batch_size.len(),
        new_tokens_per_request.len(),
        kv_read_tokens_per_request.len(),
    );
    let values: (usize, usize, usize) = values_ms.dim();
    if values.0 != axes.0 || values.1 != axes.1 || values.2 != axes.2 {
        return Err(LoadError::GridShape { values, axes });
    }
    match check_axis(&batch_size, ArrayName::PrefillBatchSize) {
        Ok(()) => {},
        Err(e) => {
            return Err(e);
        },
    }
    match check_axis(&new_tokens_per_request, ArrayName::PrefillNewTokensPerRequest) {
        Ok(()) => {},
        Err(e) => {
            return Err(e);
        },
    }
    match check_axis(&kv_read_tokens_per_request, ArrayName::PrefillKvReadTokensPerRequest) {
        Ok(()) => {},
        Err(e) => {
            return Err(e);
        },
    }
    if !durations_only(values_ms.values()) {
        return Err(LoadError::InvalidTimes);
    }
    Ok(
        PrefillInterp3D::new(
            batch_size,
            new_tokens_per_request,
            kv_read_tokens_per_request,
            values_ms,
        ),
    )
}

/// Where loading begins, given the names of the arrays in the archive: the layout
/// is batch-aware if it holds the batch size axis, and legacy if it does not.
pub fn start<T>(names: &[String]) -> (state: LoadState<T>)
    ensures
        state == (if exists|i: int|
            0 <= i < names@.len() && is_name_of(
                (#[trigger] names@[i])@,
                ArrayName::PrefillBatchSize.name(),
            ) {
            LoadState::<T>::BatchAwareArrays
        } else {
            LoadState::<T>::LegacyArrays
        }),
{
    if npz_has_name(names, ArrayName::PrefillBatchSize.text()) {
        LoadState::BatchAwareArrays
    } else {
        LoadState::LegacyArrays
    }
}

impl<T> LoadState<T> {
    /// The arrays to be read in this state, in order.
    pub open spec fn reads(self) -> Seq<ArrayName> {
        match self {
            LoadState::BatchAwareArrays => seq![
                ArrayName::PrefillBatchSize,
                ArrayName::PrefillNewTokensPerRequest,
                ArrayName::PrefillKvReadTokensPerRequest,
                ArrayName::PrefillTimeMs,
            ],
            LoadState::LegacyArrays => seq![ArrayName::PrefillIsl, ArrayName::PrefillTtftMs],
            LoadState::DecodeArrays { .. } => seq![
                ArrayName::DecodeActiveKvTokens,
                ArrayName::DecodeContextLength,
                ArrayName::DecodeItl,
            ],
            LoadState::LegacyTable | LoadState::DecodeTable { .. } => seq![],
        }
    }

    /// The arrays to be read in this state, in order.
    pub fn arrays(&self) -> (r: Vec<ArrayName>)
        ensures
            r@ == self.reads(),
    {
        match self {
            LoadState::BatchAwareArrays => vec![
                ArrayName::PrefillBatchSize,
                ArrayName::PrefillNewTokensPerRequest,
                ArrayName::PrefillKvReadTokensPerRequest,
                ArrayName::PrefillTimeMs,
            ],
            LoadState::LegacyArrays => vec![ArrayName::PrefillIsl, ArrayName::PrefillTtftMs],
            LoadState::DecodeArrays { .. } => vec![
                ArrayName::DecodeActiveKvTokens,
                ArrayName::DecodeContextLength,
                ArrayName::DecodeItl,
            ],
            LoadState::LegacyTable => Vec::new(),
            LoadState::DecodeTable { .. } => Vec::new(),
        }
    }
}

/// Whether a state and the event that answers it lead to an outcome.
///
/// - The arrays of the batch-aware layout give a surface over them, or the error
///   that [`batch_aware_error`] finds in them.
/// - The arrays of the legacy layout have to be of one length. Its table is taken
///   as it is, and read at total new tokens.
/// - The decode arrays have to match in their extents. With the decode table the
///   model is complete.
pub open spec fn advanced<T, D, C>(
    state: LoadState<T>,
    event: LoadEvent<T, D>,
    r: Result<LoadProgress<T, D, C>, LoadError>,
) -> bool {
    match event {
        LoadEvent::BatchAwareArrays {
            batch_size,
            new_tokens_per_request,
            kv_read_tokens_per_request,
            values_ms,
        } => match batch_aware_error(
            batch_size@,
            new_tokens_per_request@,
            kv_read_tokens_per_request@,
            values_ms,
        ) {
            Some(e) => r == Err::<LoadProgress<T, D, C>, LoadError>(e),
            None => r matches Ok(
                LoadProgress::Next {
                    state: LoadState::DecodeArrays {
                        prefill: PrefillProfile::BatchAware(surface),
                    },
                },
            ) && {
                &&& surface.batch_axis() == batch_size@
                &&& surface.fresh_axis() == new_tokens_per_request@
                &&& surface.kv_axis() == kv_read_tokens_per_request@
                &&& surface.times() == values_ms
                &&& measured(surface)
            },
        },
        LoadEvent::LegacyArrays { isl, ttft } => r == if isl == ttft {
            Ok(LoadProgress::<T, D, C>::Next { state: LoadState::<T>::LegacyTable })
        } else {
            Err(LoadError::LegacyLength { isl, ttft })
        },
        LoadEvent::LegacyTable { legacy } => r == Ok::<LoadProgress<T, D, C>, LoadError>(
            LoadProgress::Next {
                state: LoadState::DecodeArrays {
                    prefill: PrefillProfile::Legacy(PrefillInterp1D { inner: legacy }),
                },
            },
        ),
        LoadEvent::DecodeArrays { active_kv, context, rows, cols } => r == if rows == active_kv
            && cols == context {
            Ok(
                LoadProgress::<T, D, C>::Next {
                    state: LoadState::DecodeTable { prefill: state->DecodeArrays_prefill },
                },
            )
        } else {
            Err(LoadError::DecodeShape { rows, cols, active_kv, context })
        },
        LoadEvent::DecodeTable { decode } => r == Ok::<LoadProgress<T, D, C>, LoadError>(
            LoadProgress::Ready {
                model: PerfModel::Interpolated {
                    prefill_interp: Arc::new(state->DecodeTable_prefill),
                    decode_interp: Arc::new(decode),
                },
            },
        ),
    }
}

/// Reading the arrays of the batch-aware layout leads on to the decode arrays if and
/// only if there is one time for each combination of points of three valid axes, and
/// all times are finite and not negative. The surface is the one that was read.
pub proof fn law_batch_aware_arrays_read<T, D, C>(
    state: LoadState<T>,
    batch_size: Vec<Double>,
    new_tokens_per_request: Vec<Double>,
    kv_read_tokens_per_request: Vec<Double>,
    values_ms: Grid,
    r: Result<LoadProgress<T, D, C>, LoadError>,
)
    requires
        advanced(
            state,
            LoadEvent::<T, D>::BatchAwareArrays {
                batch_size,
                new_tokens_per_request,
                kv_read_tokens_per_request,
                values_ms,
            },
            r,
        ),
    ensures
        r is Ok <==> {
            &&& values_ms.extents().0 == batch_size@.len()
            &&& values_ms.extents().1 == new_tokens_per_request@.len()
            &&& values_ms.extents().2 == kv_read_tokens_per_request@.len()
            &&& valid_axis(batch_size@)
            &&& valid_axis(new_tokens_per_request@)
            &&& valid_axis(kv_read_tokens_per_request@)
            &&& forall|i: int|
                0 <= i < values_ms.elements().len() ==> (#[trigger] values_ms.elements()[i]).finite()
                    && values_ms.elements()[i].value() >= 0
        },
        r matches Ok(progress) ==> {
            &&& progress is Next
            &&& progress->state is DecodeArrays
            &&& progress->state->DecodeArrays_prefill matches PrefillProfile::BatchAware(surface)
                && surface.batch_axis() == batch_size@ && surface.fresh_axis()
                == new_tokens_per_request@ && surface.kv_axis() == kv_read_tokens_per_request@
                && surface.times() == values_ms
        },
        r matches Err(e) ==> batch_aware_error(
            batch_size@,
            new_tokens_per_request@,
            kv_read_tokens_per_request@,
            values_ms,
        ) == Some(e),
{
    assert(batch_size@.len() == batch_size.len());
    assert(new_tokens_per_request@.len() == new_tokens_per_request.len());
    assert(kv_read_tokens_per_request@.len() == kv_read_tokens_per_request.len());
    law_batch_aware_accepted(
        batch_size@,
        new_tokens_per_request@,
        kv_read_tokens_per_request@,
        values_ms,
    );
}

/// Reading the arrays of the legacy layout leads on to building the table if and only
/// if both have one length. The error tells both lengths.
pub proof fn law_legacy_arrays_read<T, D, C>(
    state: LoadState<T>,
    isl: usize,
    ttft: usize,
    r: Result<LoadProgress<T, D, C>, LoadError>,
)
    requires
        advanced(state, LoadEvent::<T, D>::LegacyArrays { isl, ttft }, r),
    ensures
        r is Ok <==> isl == ttft,
        r matches Ok(progress) ==> progress is Next && progress->state is LegacyTable,
        r matches Err(e) ==> e == (LoadError::LegacyLength { isl, ttft }),
{
}

/// The table of the legacy layout becomes the prefill profile as it is, and the
/// decode arrays come next.
pub proof fn law_legacy_table_built<T, D, C>(
    state: LoadState<T>,
    legacy: T,
    r: Result<LoadProgress<T, D, C>, LoadError>,
)
    requires
        advanced(state, LoadEvent::<T, D>::LegacyTable { legacy }, r),
    ensures
        r matches Ok(progress) && progress is Next && progress->state is DecodeArrays && (
        progress->state->DecodeArrays_prefill matches PrefillProfile::Legacy(table) && table.inner
            == legacy),
{
}

/// Reading the decode arrays leads on to building the decode table if and only if the
/// times have one row for each number of active KV tokens and one column for each
/// context length. The prefill profile is kept, and the error tells the extents.
pub proof fn law_decode_arrays_read<T, D, C>(
    prefill: PrefillProfile<T>,
    active_kv: usize,
    context: usize,
    rows: usize,
    cols: usize,
    r: Result<LoadProgress<T, D, C>, LoadError>,
)
    requires
        advanced(
            LoadState::DecodeArrays { prefill },
            LoadEvent::<T, D>::DecodeArrays { active_kv, context, rows, cols },
            r,
        ),
    ensures
        r is Ok <==> rows == active_kv && cols == context,
        r matches Ok(progress) ==> progress is Next && progress->state is DecodeTable
            && progress->state->DecodeTable_prefill == prefill,
        r matches Err(e) ==> e == (LoadError::DecodeShape { rows, cols, active_kv, context }),
{
}

/// With the decode table the model is complete. It interpolates in the prefill
/// profile and in that table.
pub proof fn law_decode_table_built<T, D, C>(
    prefill: PrefillProfile<T>,
    decode: D,
    r: Result<LoadProgress<T, D, C>, LoadError>,
)
    requires
        advanced(
            LoadState::DecodeTable { prefill },
            LoadEvent::<T, D>::DecodeTable { decode },
            r,
        ),
    ensures
        r matches Ok(progress) && progress is Ready && progress->model is Interpolated
            && *progress->model->prefill_interp == prefill && *progress->model->decode_interp
            == decode,
{
}

/// The arrays that are read in each state, whatever the profile that was loaded
/// before.
pub proof fn law_arrays_of_states<T>(state: LoadState<T>)
    ensures
        state is BatchAwareArrays ==> state.reads() == seq![
            ArrayName::PrefillBatchSize,
            ArrayName::PrefillNewTokensPerRequest,
            ArrayName::PrefillKvReadTokensPerRequest,
            ArrayName::PrefillTimeMs,
        ],
        state is LegacyArrays ==> state.reads() == seq![
            ArrayName::PrefillIsl,
            ArrayName::PrefillTtftMs,
        ],
        state is DecodeArrays ==> state.reads() == seq![
            ArrayName::DecodeActiveKvTokens,
            ArrayName::DecodeContextLength,
            ArrayName::DecodeItl,
        ],
        state is LegacyTable || state is DecodeTable ==> state.reads().len() == 0,
{
}

/// What is read in each state is what answers it.
pub proof fn law_states_are_answered<T, D>(state: LoadState<T>, event: LoadEvent<T, D>)
    ensures
        answers(state, event) <==> (state is BatchAwareArrays && event is BatchAwareArrays) || (
        state is LegacyArrays && event is LegacyArrays) || (state is LegacyTable
            && event is LegacyTable) || (state is DecodeArrays && event is DecodeArrays) || (
        state is DecodeTable && event is DecodeTable),
{
}

/// Takes loading one step further.
pub fn advance<T: PrefillTable, D: DecodeInterpolator, C: AicCallback>(
    state: LoadState<T>,
    event: LoadEvent<T, D>,
) -> (r: Result<LoadProgress<T, D, C>, LoadError>)
    requires
        answers(state, event),
    ensures
        advanced(state, event, r),
{
    match (state, event) {
        (
            LoadState::BatchAwareArrays,
            LoadEvent::BatchAwareArrays {
                batch_size,
                new_tokens_per_request,
                kv_read_tokens_per_request,
                values_ms,
            },
        ) => match batch_aware_prefill(
            batch_size,
            new_tokens_per_request,
            kv_read_tokens_per_request,
            values_ms,
        ) {
            Ok(surface) => Ok(
                LoadProgress::Next {
                    state: LoadState::DecodeArrays { prefill: PrefillProfile::BatchAware(surface) },
                },
            ),
            Err(e) => Err(e),
        },
        (LoadState::LegacyArrays, LoadEvent::LegacyArrays { isl, ttft }) => if isl == ttft {
            Ok(LoadProgress::Next { state: LoadState::LegacyTable })
        } else {
            Err(LoadError::LegacyLength { isl, ttft })
        },
        (LoadState::LegacyTable, LoadEvent::LegacyTable { legacy }) => Ok(
            LoadProgress::Next {
                state: LoadState::DecodeArrays {
                    prefill: PrefillProfile::Legacy(PrefillInterp1D { inner: legacy }),
                },
            },
        ),
        (
            LoadState::DecodeArrays { prefill },
            LoadEvent::DecodeArrays { active_kv, context, rows, cols },
        ) => if rows == active_kv && cols == context {
            Ok(LoadProgress::Next { state: LoadState::DecodeTable { prefill } })
        } else {
            Err(LoadError::DecodeShape { rows, cols, active_kv, context })
        },
        (LoadState::DecodeTable { prefill }, LoadEvent::DecodeTable { decode }) => Ok(
            LoadProgress::Ready {
                model: PerfModel::Interpolated {
                    prefill_interp: Arc::new(prefill),
                    decode_interp: Arc::new(decode),
                },
            },
        ),
        _ => vstd::pervasive::unreached(),
    }
}

} // verus!
