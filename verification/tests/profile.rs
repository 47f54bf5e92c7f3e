use ndarray_interp::InterpolateError;
use perf_model::axis::InterpolationError;
use perf_model::double::Double;
use perf_model::interpolator::{AicCallback, DecodeInterpolator, PrefillInterpolator, PrefillTable};
use perf_model::npz::npz_has_name;
use perf_model::profile::{
    advance, batch_aware_prefill, legacy_coordinate, start, ArrayName, LoadError, LoadEvent,
    LoadProgress, LoadState, PrefillInterp1D, PrefillProfile,
};
use perf_model::surface::Grid;
use perf_model::text::write_decimal;

fn d(x: f64) -> Double {
    Double { bits: x.to_bits() }
}

fn f(x: Double) -> f64 {
    f64::from_bits(x.bits)
}

fn ds(xs: &[f64]) -> Vec<Double> {
    xs.iter().map(|x| d(*x)).collect()
}

fn strings(names: &[&str]) -> Vec<String> {
    names.iter().map(|s| s.to_string()).collect()
}

/// A legacy table with a slope of two, up to a million tokens.
struct Slope;

impl PrefillTable for Slope {
    fn interp_scalar(&self, x: Double) -> Result<Double, InterpolateError> {
        if f(x) > 1e6 {
            return Err(InterpolateError::OutOfBounds("beyond the table".to_string()));
        }
        Ok(d(2.0 * f(x)))
    }
}

/// A decode table that adds its coordinates.
struct Sum;

impl DecodeInterpolator for Sum {
    fn interp(&self, x: Double, y: Double) -> Result<Double, InterpolateError> {
        Ok(d(f(x) + f(y)))
    }
}

struct Silent;

impl AicCallback for Silent {
    fn predict_prefill(&self, _: usize, _: usize, _: usize) -> Double {
        d(0.0)
    }

    fn predict_decode(&self, _: usize, _: usize, _: usize) -> Double {
        d(0.0)
    }
}

type Progress = LoadProgress<Slope, Sum, Silent>;

fn step(state: LoadState<Slope>, event: LoadEvent<Slope, Sum>) -> Result<Progress, LoadError> {
    advance(state, event)
}

fn next(r: Result<Progress, LoadError>) -> LoadState<Slope> {
    match r {
        Ok(LoadProgress::Next { state }) => state,
        _ => panic!("loading has ended"),
    }
}

fn batch_aware(batch: &[f64], fresh: &[f64], kv: &[f64], dims: (usize, usize, usize), times: &[f64]) -> LoadEvent<Slope, Sum> {
    LoadEvent::BatchAwareArrays {
        batch_size: ds(batch),
        new_tokens_per_request: ds(fresh),
        kv_read_tokens_per_request: ds(kv),
        values_ms: Grid::new(dims, ds(times)).unwrap(),
    }
}

#[test]
fn names_are_found_with_and_without_extension() {
    let names = strings(&["a", "b.npy", "c.npy.npy"]);
    assert!(npz_has_name(&names, "a"));
    assert!(npz_has_name(&names, "b"));
    assert!(npz_has_name(&names, "b.npy"));
    assert!(npz_has_name(&names, "c.npy"));
    assert!(!npz_has_name(&names, "c"));
    assert!(!npz_has_name(&names, "a.npy"));
    assert!(!npz_has_name(&names, "A"));
    assert!(!npz_has_name(&names, ""));
    assert!(!npz_has_name(&[], "a"));
    assert!(npz_has_name(&strings(&[".npy"]), ""));
}

#[test]
fn layout_follows_from_the_names() {
    let legacy: LoadState<Slope> = start(&strings(&["prefill_isl", "prefill_ttft_ms", "decode_itl"]));
    assert!(matches!(legacy, LoadState::LegacyArrays));
    assert_eq!(legacy.arrays(), vec![ArrayName::PrefillIsl, ArrayName::PrefillTtftMs]);
    for name in ["prefill_batch_size", "prefill_batch_size.npy"] {
        let state: LoadState<Slope> = start(&strings(&["prefill_isl", name]));
        assert!(matches!(state, LoadState::BatchAwareArrays));
        assert_eq!(
            state.arrays(),
            vec![
                ArrayName::PrefillBatchSize,
                ArrayName::PrefillNewTokensPerRequest,
                ArrayName::PrefillKvReadTokensPerRequest,
                ArrayName::PrefillTimeMs,
            ]
        );
    }
    assert!(matches!(start::<Slope>(&[]), LoadState::LegacyArrays));
}

#[test]
fn arrays_have_their_names_in_the_archive() {
    for (array, name) in [
        (ArrayName::PrefillBatchSize, "prefill_batch_size"),
        (ArrayName::PrefillNewTokensPerRequest, "prefill_new_tokens_per_request"),
        (ArrayName::PrefillKvReadTokensPerRequest, "prefill_kv_read_tokens_per_request"),
        (ArrayName::PrefillTimeMs, "prefill_time_ms"),
        (ArrayName::PrefillIsl, "prefill_isl"),
        (ArrayName::PrefillTtftMs, "prefill_ttft_ms"),
        (ArrayName::DecodeActiveKvTokens, "decode_active_kv_tokens"),
        (ArrayName::DecodeContextLength, "decode_context_length"),
        (ArrayName::DecodeItl, "decode_itl"),
    ] {
        assert_eq!(array.text(), name);
        assert_eq!(array.missing_message(), format!("Failed to load {name} from NPZ"));
    }
}

#[test]
fn batch_aware_profile_is_loaded() {
    let state = next(step(
        start(&strings(&["prefill_batch_size"])),
        batch_aware(&[1.0, 2.0], &[0.0, 4.0], &[0.0, 8.0], (2, 2, 2), &[0.0, 1.0, 2.0, 3.0, 4.0, 5.0, 6.0, 7.0]),
    ));
    assert_eq!(
        state.arrays(),
        vec![ArrayName::DecodeActiveKvTokens, ArrayName::DecodeContextLength, ArrayName::DecodeItl]
    );
    let state = next(step(state, LoadEvent::DecodeArrays { active_kv: 3, context: 2, rows: 3, cols: 2 }));
    assert!(matches!(state, LoadState::DecodeTable { .. }));
    assert!(state.arrays().is_empty());
    let model = match step(state, LoadEvent::DecodeTable { decode: Sum }) {
        Ok(LoadProgress::Ready { model }) => model,
        _ => panic!("the model is complete"),
    };
    assert_eq!(f(model.predict_prefill_time(1, 6, 2)), 2.0 + 0.25);
    assert_eq!(f(model.predict_prefill_time(3, 8, 8)), 0.0);
    assert_eq!(f(model.predict_prefill_time(2, 12, 8)), 7.0);
    assert_eq!(f(model.predict_decode_time(1, 30, 12, 99)), 42.0);
}

#[test]
fn legacy_profile_is_loaded() {
    let state = next(step(
        start(&strings(&["prefill_isl"])),
        LoadEvent::LegacyArrays { isl: 5, ttft: 5 },
    ));
    assert!(matches!(state, LoadState::LegacyTable));
    assert!(state.arrays().is_empty());
    let state = next(step(state, LoadEvent::LegacyTable { legacy: Slope }));
    assert!(matches!(&state, LoadState::DecodeArrays { prefill: PrefillProfile::Legacy(_) }));
    let state = next(step(state, LoadEvent::DecodeArrays { active_kv: 1, context: 1, rows: 1, cols: 1 }));
    let model = match step(state, LoadEvent::DecodeTable { decode: Sum }) {
        Ok(LoadProgress::Ready { model }) => model,
        _ => panic!("the model is complete"),
    };
    // The total of new tokens decides, however it is made up.
    assert_eq!(f(model.predict_prefill_time(3, 10, 2)), 48.0);
    assert_eq!(f(model.predict_prefill_time(8, 103, 100)), 48.0);
    for (batch, isl, prefix) in [(3usize, 10usize, 2usize), (8, 103, 100), (1, 5, 9), (0, 5, 1), (7, 1000, 1), (900, 9000, 1)] {
        let total = batch * isl.saturating_sub(prefix);
        assert_eq!(
            model.predict_prefill_time(batch, isl, prefix).bits,
            model.predict_prefill_time(1, total, 0).bits
        );
    }
    // Where the table has no answer, there is no time.
    assert_eq!(f(model.predict_prefill_time(900, 9000, 1)), 0.0);
    assert_eq!(f(model.predict_decode_time(1, 0, 0, 0)), 1.0);
}

#[test]
fn legacy_surfaces_read_their_table_at_the_total() {
    let surface = PrefillInterp1D { inner: Slope };
    assert_eq!(f(surface.interp(d(3.0), d(8.0), d(2.0)).unwrap()), 48.0);
    assert_eq!(f(surface.interp(d(3.0), d(8.0), d(f64::NAN)).unwrap()), 48.0);
    match surface.interp(d(2000.0), d(1000.0), d(0.0)) {
        Err(InterpolationError::Table(InterpolateError::OutOfBounds(text))) => {
            assert_eq!(text, "beyond the table")
        }
        _ => panic!("the table ends before"),
    }
    let profile = PrefillProfile::Legacy(PrefillInterp1D { inner: Slope });
    assert_eq!(f(profile.interp(d(2.0), d(12.0), d(1e300)).unwrap()), 48.0);
    assert!(profile.interp(d(2000.0), d(1000.0), d(0.0)).is_err());
}

#[test]
fn legacy_coordinate_is_the_total() {
    for (b, n) in [(0u64, 5u64), (3, 7), (1 << 40, 12345), ((1 << 53) - 1, (1 << 53) - 3), (1 << 53, 1 << 53)] {
        let x = legacy_coordinate(d(b as f64), d(n as f64));
        assert_eq!(x.bits, (((b as u128) * (n as u128)) as f64).to_bits());
    }
}

#[test]
fn grid_has_to_match_the_axes() {
    let r = step(
        LoadState::BatchAwareArrays,
        batch_aware(&[1.0, 2.0], &[0.0], &[0.0, 8.0, 9.0], (2, 3, 1), &[0.0, 1.0, 2.0, -3.0, 4.0, 5.0]),
    );
    match r {
        Err(e) => {
            assert!(matches!(e, LoadError::GridShape { values: (2, 3, 1), axes: (2, 1, 3) }));
            assert_eq!(
                e.message(),
                format!(
                    "Batch-aware prefill array dimension mismatch: values={:?}, axes={:?}",
                    (2, 3, 1),
                    (2, 1, 3)
                )
            );
        }
        Ok(_) => panic!("the extents differ"),
    }
}

#[test]
fn axes_of_a_profile_are_checked_in_order() {
    let good = [1.0, 2.0];
    let bad = [2.0, 1.0];
    let times = [0.0, 1.0, 2.0, 3.0, 4.0, 5.0, 6.0, -7.0];
    for (b, n, k, expected) in [
        (bad, bad, bad, ArrayName::PrefillBatchSize),
        (good, bad, bad, ArrayName::PrefillNewTokensPerRequest),
        (good, good, bad, ArrayName::PrefillKvReadTokensPerRequest),
    ] {
        match step(LoadState::BatchAwareArrays, batch_aware(&b, &n, &k, (2, 2, 2), &times)) {
            Err(e) => {
                assert_eq!(e.message(), format!("Invalid {} axis", expected.text()));
                match e {
                    LoadError::InvalidAxis { array, cause } => {
                        assert_eq!(array, expected);
                        assert_eq!(
                            cause.message().unwrap(),
                            "interpolation axis must be finite and strictly increasing"
                        );
                    }
                    _ => panic!("an axis is out of order"),
                }
            }
            Ok(_) => panic!("an axis is out of order"),
        }
    }
    match step(LoadState::BatchAwareArrays, batch_aware(&[1.0], &good, &good, (1, 2, 2), &times[..4])) {
        Err(LoadError::InvalidAxis { array, cause }) => {
            assert_eq!(array, ArrayName::PrefillBatchSize);
            assert_eq!(
                cause.message().unwrap(),
                "interpolation axis must contain at least two points"
            );
        }
        _ => panic!("an axis has one point"),
    }
}

#[test]
fn times_have_to_be_durations() {
    let axis = [1.0, 2.0];
    for bad in [-1e-300, f64::NAN, f64::INFINITY, f64::NEG_INFINITY] {
        for i in 0..8 {
            let mut times = [0.0, 1.0, 2.0, 3.0, 4.0, 5.0, 6.0, 7.0];
            times[i] = bad;
            match step(LoadState::BatchAwareArrays, batch_aware(&axis, &axis, &axis, (2, 2, 2), &times)) {
                Err(e) => {
                    assert!(matches!(e, LoadError::InvalidTimes));
                    assert_eq!(
                        e.message(),
                        "prefill_time_ms must contain only finite non-negative values"
                    );
                }
                Ok(_) => panic!("a time is no duration"),
            }
        }
    }
    let zero = [0.0, -0.0, 0.0, 0.0, 0.0, 0.0, 0.0, f64::MAX];
    assert!(batch_aware_prefill(
        ds(&axis),
        ds(&axis),
        ds(&axis),
        Grid::new((2, 2, 2), ds(&zero)).unwrap()
    )
    .is_ok());
}

#[test]
fn loaded_surfaces_have_a_time_everywhere() {
    let s = batch_aware_prefill(
        ds(&[1.0, 2.0]),
        ds(&[10.0, 20.0]),
        ds(&[0.0, 5.0]),
        Grid::new((2, 2, 2), ds(&[1.0; 8])).unwrap(),
    );
    match s {
        Ok(s) => {
            for x in [f64::MIN, -1.0, 0.0, 1.5, 1e300, f64::MAX] {
                assert!(s.interp(d(x), d(x), d(x)).is_ok());
            }
            assert!(s.interp(d(f64::NAN), d(0.0), d(0.0)).is_err());
        }
        Err(_) => panic!("the arrays are in order"),
    }
}

#[test]
fn legacy_arrays_have_one_length() {
    match step(LoadState::LegacyArrays, LoadEvent::LegacyArrays { isl: 10, ttft: 12 }) {
        Err(e) => {
            assert!(matches!(e, LoadError::LegacyLength { isl: 10, ttft: 12 }));
            assert_eq!(e.message(), "Prefill array length mismatch: isl=10, ttft=12");
        }
        Ok(_) => panic!("the lengths differ"),
    }
}

#[test]
fn decode_arrays_have_to_match() {
    for (rows, cols) in [(3, 2), (2, 4), (3, 4), (4, 3)] {
        let state = LoadState::DecodeArrays { prefill: PrefillProfile::Legacy(PrefillInterp1D { inner: Slope }) };
        let r = step(state, LoadEvent::DecodeArrays { active_kv: 2, context: 2, rows, cols });
        match r {
            Err(e) => assert_eq!(
                e.message(),
                format!("Decode array dimension mismatch: itl shape=({rows}, {cols}), active_kv=2, context=2")
            ),
            Ok(_) => panic!("the extents differ"),
        }
    }
}

#[test]
fn coordinates_that_are_not_finite_are_written_out() {
    for bad in [f64::NAN, f64::INFINITY, f64::NEG_INFINITY, -f64::NAN] {
        assert_eq!(
            InterpolationError::NonFiniteCoordinate(d(bad)).message().unwrap(),
            format!("interpolation coordinate must be finite, got {bad}")
        );
    }
    let table = InterpolationError::Table(InterpolateError::OutOfBounds("outside".to_string()));
    assert!(table.message().is_none());
}

#[test]
fn naturals_are_written_in_decimal() {
    for n in [0, 7, 9, 10, 11, 99, 100, 1234567890, usize::MAX] {
        assert_eq!(write_decimal(n), format!("{n}"));
    }
}
