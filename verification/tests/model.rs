use ndarray::{Array1, Array2, Ix2, OwnedRepr};
use ndarray_interp::interp2d::{Bilinear, Interp2D, Interp2DBuilder};
use ndarray_interp::InterpolateError;
use perf_model::axis::InterpolationError;
use perf_model::double::Double;
use perf_model::interpolator::{AicCallback, DecodeInterpolator, PrefillInterpolator};
use perf_model::model::{
    decode_floor, decode_polynomial, interpolated_time, kv_share, prefill_floor,
    prefill_polynomial, PerfModel,
};
use perf_model::surface::{Grid, PrefillInterp3D};
use std::sync::Arc;

fn d(x: f64) -> Double {
    Double { bits: x.to_bits() }
}

fn f(x: Double) -> f64 {
    f64::from_bits(x.bits)
}

struct EchoBatchCallback;

impl AicCallback for EchoBatchCallback {
    fn predict_prefill(&self, batch_size: usize, _effective_isl: usize, _prefix: usize) -> Double {
        d(batch_size as f64)
    }

    fn predict_decode(&self, batch_size: usize, _isl: usize, _osl: usize) -> Double {
        d(batch_size as f64)
    }
}

/// Answers with its arguments in one number, or fails where it is told to.
struct EchoTable {
    fails: bool,
}

impl PrefillInterpolator for EchoTable {
    fn interp(
        &self,
        batch_size: Double,
        new_tokens_per_request: Double,
        prefix: Double,
    ) -> Result<Double, InterpolationError> {
        if self.fails {
            Err(InterpolationError::AxisTooShort)
        } else {
            Ok(d(f(batch_size) * 1e8 + f(new_tokens_per_request) * 1e4 + f(prefix)))
        }
    }
}

impl DecodeInterpolator for EchoTable {
    fn interp(&self, x: Double, y: Double) -> Result<Double, InterpolateError> {
        if self.fails {
            Err(InterpolateError::OutOfBounds("outside".to_string()))
        } else {
            Ok(d(f(x) * 1e4 + f(y)))
        }
    }
}

/// Answers with its arguments in one number.
struct EchoArguments;

impl AicCallback for EchoArguments {
    fn predict_prefill(&self, batch_size: usize, effective_isl: usize, prefix: usize) -> Double {
        d(batch_size as f64 * 1e8 + effective_isl as f64 * 1e4 + prefix as f64)
    }

    fn predict_decode(&self, batch_size: usize, isl: usize, osl: usize) -> Double {
        d(batch_size as f64 * 1e8 + isl as f64 * 1e4 + osl as f64)
    }
}

/// Answers with one number, whatever is asked.
struct Constant(f64);

impl AicCallback for Constant {
    fn predict_prefill(&self, _: usize, _: usize, _: usize) -> Double {
        d(self.0)
    }

    fn predict_decode(&self, _: usize, _: usize, _: usize) -> Double {
        d(self.0)
    }
}

type Model<C> = PerfModel<EchoTable, EchoTable, C>;

fn polynomial() -> Model<EchoBatchCallback> {
    PerfModel::default()
}

fn interpolated(fails: bool) -> Model<EchoBatchCallback> {
    PerfModel::Interpolated {
        prefill_interp: Arc::new(EchoTable { fails }),
        decode_interp: Arc::new(EchoTable { fails }),
    }
}

#[test]
fn fully_cached_prompt_skips_prefill() {
    assert_eq!(f(polynomial().predict_prefill_time(1, 128, 128)), 0.0);
}

#[test]
fn aic_forwards_scheduler_local_batch() {
    let model: Model<EchoBatchCallback> = PerfModel::from_aic_callback(Arc::new(EchoBatchCallback));

    assert_eq!(f(model.predict_prefill_time(7, 128, 0)), 7.0);
    assert_eq!(f(model.predict_decode_time(9, 0, 128, 0)), 9.0);
}

#[test]
fn empty_batches_and_cached_prompts_take_no_time() {
    for model in [polynomial(), interpolated(false)] {
        assert_eq!(model.predict_prefill_time(0, 128, 0).bits, 0);
        assert_eq!(model.predict_prefill_time(3, 10, 20).bits, 0);
        assert_eq!(model.predict_prefill_time(3, 0, 0).bits, 0);
        assert_eq!(model.predict_decode_time(0, 5, 6, 7).bits, 0);
    }
    let aic: Model<Constant> = PerfModel::from_aic_callback(Arc::new(Constant(5.0)));
    assert_eq!(aic.predict_prefill_time(usize::MAX, 4, 4).bits, 0);
    assert_eq!(aic.predict_decode_time(0, 5, 6, 7).bits, 0);
}

#[test]
fn polynomial_prefill_is_the_machine_formula() {
    let model = polynomial();
    for (batch, isl, prefix) in [(1, 1, 0), (1, 128, 0), (7, 4096, 1000), (64, 131072, 1), (3, 9, 8)] {
        let tokens = (batch * (isl - prefix)) as f64;
        let expected = 4.209989e-07 * tokens.powi(2) + 1.518344e-02 * tokens + 1.650142e+01;
        assert_eq!(f(model.predict_prefill_time(batch, isl, prefix)), expected);
    }
    assert_eq!(f(prefill_polynomial(0)), 1.650142e+01);
    // One token: 4.209989e-07 + 1.518344e-02 + 16.50142.
    assert!((f(prefill_polynomial(1)) - 16.5166038609989).abs() < 1e-12);
    let tokens = usize::MAX as f64;
    let expected = 4.209989e-07 * tokens.powi(2) + 1.518344e-02 * tokens + 1.650142e+01;
    assert_eq!(f(model.predict_prefill_time(1, usize::MAX, 0)), expected);
}

#[test]
fn polynomial_prefill_never_falls() {
    let mut last = 0.0;
    for tokens in [0usize, 1, 2, 3, 100, 101, 102, 4096, 1 << 40, (1 << 40) + 1, usize::MAX] {
        let time = f(prefill_polynomial(tokens));
        assert!(last <= time);
        last = time;
    }
}

#[test]
fn polynomial_decode_is_the_machine_formula() {
    let model = polynomial();
    for (active, total) in [(0usize, 100usize), (1, 3), (50, 100), (100, 100), (120, 100), (7, 8)] {
        let share = active as f64 / total as f64;
        let expected = -25.74 * share.powi(2) + 54.01 * share + 5.74;
        assert_eq!(f(kv_share(active, total)), share);
        assert_eq!(f(decode_polynomial(kv_share(active, total))), expected);
        assert_eq!(f(model.predict_decode_time(1, active, 0, total)), expected.max(1.0));
    }
    assert_eq!(f(model.predict_decode_time(1, 0, 0, 100)), 5.74);
    // Far beyond capacity the formula is negative.
    assert_eq!(f(model.predict_decode_time(1, 1000, 0, 100)), 1.0);
}

#[test]
fn polynomial_decode_rises_with_utilization() {
    let model = polynomial();
    for total in [1usize, 7, 100, 1 << 20, 1 << 32] {
        let mut last = 0.0;
        let steps = [0, 1, 2, total / 3, total / 2, total - total / 8, total.saturating_sub(1), total];
        let mut active: Vec<usize> = steps.iter().map(|a| *a.min(&total)).collect();
        active.sort();
        active.dedup();
        for (i, a) in active.iter().enumerate() {
            let time = f(model.predict_decode_time(1 + i, *a, 10 * i, total));
            assert!(last < time);
            assert!(5.74 <= time && time <= 34.01 + 1e-9);
            last = time;
        }
        assert_eq!(f(model.predict_decode_time(1, 0, 0, total)), 5.74);
        assert!((last - 34.01).abs() < 1e-9);
    }
}

#[test]
fn polynomial_prefill_goes_by_the_total() {
    let model = polynomial();
    for (batch, isl, prefix) in [(3usize, 10usize, 2usize), (8, 103, 100), (1, 5, 9), (0, 5, 1), (1 << 20, 1 << 21, 7)] {
        let total = batch * isl.saturating_sub(prefix);
        assert_eq!(
            model.predict_prefill_time(batch, isl, prefix).bits,
            model.predict_prefill_time(1, total, 0).bits
        );
    }
}

#[test]
fn without_kv_capacity_all_of_it_is_active() {
    let full = f(polynomial().predict_decode_time(1, 100, 0, 100));
    assert_eq!(f(polynomial().predict_decode_time(1, 100, 0, 0)), full);
    assert_eq!(f(polynomial().predict_decode_time(1, 0, 0, 0)), full);
    assert_eq!(f(kv_share(5, 0)), 1.0);
    assert!((full - 34.01).abs() < 1e-12);
}

#[test]
fn interpolated_models_are_read_at_their_coordinates() {
    let model = interpolated(false);
    assert_eq!(f(model.predict_prefill_time(3, 128, 28)), 3.0e8 + 100.0 * 1e4 + 28.0);
    assert_eq!(f(model.predict_decode_time(3, 50, 60, 70)), 50.0 * 1e4 + 60.0);
}

#[test]
fn failed_interpolations_take_the_least_time() {
    let model = interpolated(true);
    assert_eq!(model.predict_prefill_time(3, 128, 28).bits, 0);
    assert_eq!(f(model.predict_decode_time(3, 50, 60, 70)), 1.0);
    assert_eq!(interpolated_time::<u8>(Err(1)).bits, 0);
    assert_eq!(f(interpolated_time::<u8>(Ok(d(-2.5)))), -2.5);
}

#[test]
fn aic_is_asked_with_the_reduced_inputs() {
    let model: Model<EchoArguments> = PerfModel::from_aic_callback(Arc::new(EchoArguments));
    assert_eq!(f(model.predict_prefill_time(3, 128, 28)), 3.0e8 + 100.0 * 1e4 + 28.0);
    assert_eq!(f(model.predict_decode_time(3, 50, 60, 70)), 3.0e8 + 60.0 * 1e4 + 2.0);
}

#[test]
fn times_have_floors() {
    for (raw, prefill, decode) in [
        (-3.0, 0.0, 1.0),
        (0.25, 0.25, 1.0),
        (2.5, 2.5, 2.5),
        (f64::NAN, 0.0, 1.0),
        (f64::INFINITY, f64::INFINITY, f64::INFINITY),
        (f64::NEG_INFINITY, 0.0, 1.0),
        (-0.0, 0.0, 1.0),
    ] {
        let model: Model<Constant> = PerfModel::from_aic_callback(Arc::new(Constant(raw)));
        assert_eq!(f(model.predict_prefill_time(1, 2, 1)), prefill);
        assert_eq!(f(model.predict_decode_time(1, 2, 3, 4)), decode);
        assert_eq!(f(prefill_floor(d(raw))), prefill);
        assert_eq!(f(decode_floor(d(raw))), decode);
    }
}

#[test]
fn clones_predict_the_same() {
    let polynomial = polynomial();
    let table = interpolated(false);
    let aic: Model<EchoArguments> = PerfModel::from_aic_callback(Arc::new(EchoArguments));
    for (batch, isl, prefix) in [(1, 2, 1), (4, 100, 7)] {
        assert_eq!(
            polynomial.clone().predict_prefill_time(batch, isl, prefix).bits,
            polynomial.predict_prefill_time(batch, isl, prefix).bits
        );
        assert_eq!(
            table.clone().predict_prefill_time(batch, isl, prefix).bits,
            table.predict_prefill_time(batch, isl, prefix).bits
        );
        assert_eq!(
            aic.clone().predict_prefill_time(batch, isl, prefix).bits,
            aic.predict_prefill_time(batch, isl, prefix).bits
        );
    }
}

#[test]
fn models_are_shown_by_kind() {
    let aic: Model<EchoArguments> = PerfModel::from_aic_callback(Arc::new(EchoArguments));
    assert_eq!(polynomial().debug_text(), "PerfModel::Polynomial");
    assert_eq!(interpolated(true).debug_text(), "PerfModel::Interpolated { .. }");
    assert_eq!(aic.debug_text(), "PerfModel::Aiconfigurator");
}

/// A decode table that does not extrapolate.
struct StrictTable(Interp2D<OwnedRepr<f64>, OwnedRepr<f64>, OwnedRepr<f64>, Ix2, Bilinear>);

impl DecodeInterpolator for StrictTable {
    fn interp(&self, x: Double, y: Double) -> Result<Double, InterpolateError> {
        self.0.interp_scalar(f(x), f(y)).map(d)
    }
}

#[test]
fn decode_tables_of_ndarray_interp_are_read() {
    let table = Interp2DBuilder::new(
        Array2::from_shape_vec((2, 2), vec![10.0, 20.0, 30.0, 40.0]).unwrap(),
    )
    .x(Array1::from_vec(vec![0.0, 100.0]))
    .y(Array1::from_vec(vec![0.0, 10.0]))
    .strategy(Bilinear::new())
    .build()
    .unwrap();
    let surface = PrefillInterp3D::new(
        vec![d(1.0), d(2.0)],
        vec![d(0.0), d(10.0)],
        vec![d(0.0), d(10.0)],
        Grid::new((2, 2, 2), (0..8).map(|x| d(x as f64)).collect()).unwrap(),
    );
    let model: PerfModel<PrefillInterp3D, StrictTable, EchoBatchCallback> = PerfModel::Interpolated {
        prefill_interp: Arc::new(surface),
        decode_interp: Arc::new(StrictTable(table)),
    };
    assert_eq!(f(model.predict_decode_time(1, 50, 5, 0)), 25.0);
    assert_eq!(f(model.predict_decode_time(1, 100, 10, 0)), 40.0);
    // Outside the table it refuses, and the decode step takes the least time.
    assert_eq!(f(model.predict_decode_time(1, 101, 5, 0)), 1.0);
    // 4 per batch, 0.2 per fresh token, 0.1 per prefix token.
    assert_eq!(f(model.predict_prefill_time(2, 15, 5)), 4.0 + 2.0 + 0.5);
    assert_eq!(f(model.predict_prefill_time(3, 15, 5)), 8.0 + 2.0 + 0.5);
}
