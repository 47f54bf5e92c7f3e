use perf_model::axis::{interpolation_bounds, validate_interpolation_axis, InterpolationError};
use perf_model::double::Double;
use perf_model::interpolator::PrefillInterpolator;
use perf_model::surface::{lerp, Grid, PrefillInterp3D};

fn d(x: f64) -> Double {
    Double { bits: x.to_bits() }
}

fn f(x: Double) -> f64 {
    f64::from_bits(x.bits)
}

fn ds(xs: &[f64]) -> Vec<Double> {
    xs.iter().map(|x| d(*x)).collect()
}

/// A surface whose times are a function of the axis points.
fn surface(b: &[f64], n: &[f64], k: &[f64], time: impl Fn(f64, f64, f64) -> f64) -> PrefillInterp3D {
    let mut values = Vec::new();
    for x in b {
        for y in n {
            for z in k {
                values.push(d(time(*x, *y, *z)));
            }
        }
    }
    let grid = Grid::new((b.len(), n.len(), k.len()), values).unwrap();
    PrefillInterp3D::new(ds(b), ds(n), ds(k), grid)
}

#[test]
fn batch_aware_prefill_interpolates_and_extrapolates_all_axes() {
    let batch = [1.0, 4.0];
    let fresh = [64.0, 128.0];
    let prefix = [0.0, 256.0];
    let interpolator = surface(&batch, &fresh, &prefix, |b, n, k| 2.0 * b + 3.0 * n + 5.0 * k);

    let interpolated = f(interpolator.interp(d(2.5), d(96.0), d(128.0)).unwrap());
    assert!((interpolated - (2.0 * 2.5 + 3.0 * 96.0 + 5.0 * 128.0)).abs() < 1e-9);

    let extrapolated = f(interpolator.interp(d(7.0), d(160.0), d(512.0)).unwrap());
    assert!((extrapolated - (2.0 * 7.0 + 3.0 * 160.0 + 5.0 * 512.0)).abs() < 1e-9);
}

#[test]
fn affine_surfaces_are_continued_exactly_where_nothing_is_rounded() {
    let s = surface(&[1.0, 5.0, 9.0], &[0.0, 64.0], &[0.0, 256.0], |b, n, k| 2.0 * b + 3.0 * n + 5.0 * k + 7.0);
    for b in [-3.0, 1.0, 2.0, 5.0, 7.5, 9.0, 13.0] {
        for n in [-32.0, 0.0, 16.0, 64.0, 128.0] {
            for k in [-256.0, 0.0, 32.0, 256.0, 1024.0] {
                assert_eq!(f(s.interp(d(b), d(n), d(k)).unwrap()), 2.0 * b + 3.0 * n + 5.0 * k + 7.0);
            }
        }
    }
}

#[test]
fn multilinear_surfaces_are_continued_exactly_where_nothing_is_rounded() {
    let time = |b: f64, n: f64, k: f64| {
        7.0 + 2.0 * b + 3.0 * n + 5.0 * k + b * n + 2.0 * b * k + 4.0 * n * k + 6.0 * b * n * k
    };
    let s = surface(&[1.0, 5.0, 9.0], &[0.0, 64.0], &[0.0, 256.0], time);
    for b in [-3.0, 1.0, 2.0, 5.0, 7.5, 9.0, 13.0] {
        for n in [-32.0, 0.0, 16.0, 64.0, 128.0] {
            for k in [-256.0, 0.0, 32.0, 256.0, 1024.0] {
                assert_eq!(f(s.interp(d(b), d(n), d(k)).unwrap()), time(b, n, k));
            }
        }
    }
}

#[test]
fn multilinear_surfaces_are_continued_up_to_rounding() {
    let time = |b: f64, n: f64, k: f64| 0.3 + 0.7 * b + 1.1 * n * k + 0.9 * b * n + 0.1 * b * n * k;
    let s = surface(&[0.1, 0.7, 3.3], &[0.2, 1.9], &[0.3, 2.1], time);
    for b in [-1.3, 0.1, 0.3, 0.7, 1.9, 3.3, 4.7] {
        for n in [-0.9, 0.2, 1.1, 1.9, 3.3] {
            for k in [-1.1, 0.3, 1.7, 2.1, 3.7] {
                let off = f(s.interp(d(b), d(n), d(k)).unwrap()) - time(b, n, k);
                // Corners of at most 16, coordinates at most four cells away.
                assert!(off.abs() <= 16.0 * 64.0 / (1u64 << 44) as f64);
            }
        }
    }
}

#[test]
fn times_lie_between_the_corners_of_their_cell() {
    let b = [1.0, 3.0, 8.0];
    let n = [10.0, 17.0, 100.0];
    let k = [0.0, 0.1, 0.7];
    let time = |x: f64, y: f64, z: f64| (x * 7.3 + y * y / 3.0 + z.exp()) % 91.0;
    let s = surface(&b, &n, &k, time);
    let index = |axis: &[f64; 3], v: f64| if v < axis[1] { 0 } else { 1 };
    for x in [1.0, 2.2, 3.0, 7.9, 8.0] {
        for y in [10.0, 11.1, 17.0, 50.3, 100.0] {
            for z in [0.0, 0.05, 0.1, 0.33, 0.7] {
                let (i, j, l) = (index(&b, x), index(&n, y), index(&k, z));
                let mut corners = Vec::new();
                for c in 0..8 {
                    corners.push(time(b[i + c / 4], n[j + c / 2 % 2], k[l + c % 2]));
                }
                let lo = corners.iter().fold(f64::MAX, |m, c| m.min(*c));
                let hi = corners.iter().fold(f64::MIN, |m, c| m.max(*c));
                let slack = 128.0 / (1u64 << 48) as f64;
                let t = f(s.interp(d(x), d(y), d(z)).unwrap());
                assert!(lo - slack < t && t < hi + slack);
            }
        }
    }
}

#[test]
fn surfaces_agree_with_the_machine_formula() {
    let b = [1.0, 3.0, 8.0];
    let n = [10.0, 17.0, 100.0];
    let k = [0.0, 0.1, 0.7];
    let time = |x: f64, y: f64, z: f64| (x * 7.3 + y * y / 3.0 + z.exp()) % 91.0;
    let s = surface(&b, &n, &k, time);
    let bounds = |axis: &[f64; 3], v: f64| {
        let i = if v < axis[1] { 0 } else { 1 };
        (i, (v - axis[i]) / (axis[i + 1] - axis[i]))
    };
    let line = |l: f64, r: f64, t: f64| l + (r - l) * t;
    for x in [-1.0, 1.0, 2.2, 3.0, 7.9, 8.0, 31.7] {
        for y in [0.0, 10.0, 11.1, 17.0, 50.3, 100.0, 1e6] {
            for z in [-0.3, 0.0, 0.05, 0.1, 0.33, 0.7, 12.0] {
                let (i, bt) = bounds(&b, x);
                let (j, nt) = bounds(&n, y);
                let (l, kt) = bounds(&k, z);
                let c00 = line(time(b[i], n[j], k[l]), time(b[i + 1], n[j], k[l]), bt);
                let c01 = line(time(b[i], n[j], k[l + 1]), time(b[i + 1], n[j], k[l + 1]), bt);
                let c10 = line(time(b[i], n[j + 1], k[l]), time(b[i + 1], n[j + 1], k[l]), bt);
                let c11 = line(time(b[i], n[j + 1], k[l + 1]), time(b[i + 1], n[j + 1], k[l + 1]), bt);
                let expected = line(line(c00, c10, nt), line(c01, c11, nt), kt);
                assert_eq!(f(s.interp(d(x), d(y), d(z)).unwrap()).to_bits(), expected.to_bits());
            }
        }
    }
}

#[test]
fn measured_times_are_reproduced() {
    let b = [1.0, 3.0, 8.0];
    let n = [10.0, 17.0, 100.0];
    let k = [0.0, 0.1, 0.7];
    let time = |x: f64, y: f64, z: f64| x * 1e17 + y / 3.0 + z;
    let s = surface(&b, &n, &k, time);
    for x in &b[..2] {
        for y in &n[..2] {
            for z in &k[..2] {
                assert_eq!(f(s.interp(d(*x), d(*y), d(*z)).unwrap()), time(*x, *y, *z));
            }
        }
    }
    // A coordinate of negative zero is the same point.
    assert_eq!(f(s.interp(d(1.0), d(10.0), d(-0.0)).unwrap()), time(1.0, 10.0, 0.0));
    // So is the last point of an axis where the step to it is not rounded.
    let even = |x: f64, y: f64, z: f64| 3.0 * x + 0.5 * y * y + x * z;
    let whole = surface(&[1.0, 3.0, 8.0], &[10.0, 17.0, 100.0], &[0.0, 2.0, 7.0], even);
    for x in [1.0, 3.0, 8.0] {
        for y in [10.0, 17.0, 100.0] {
            for z in [0.0, 2.0, 7.0] {
                assert_eq!(f(whole.interp(d(x), d(y), d(z)).unwrap()), even(x, y, z));
            }
        }
    }
    // Negative numbers are reproduced as well.
    let odd = |x: f64, y: f64, z: f64| 3.0 - 7.0 * x + 0.5 * y - x * z;
    let mixed = surface(&[-4.0, 3.0, 8.0], &[-1.0, 17.0], &[-5.0, 2.0, 7.0], odd);
    for x in [-4.0, 3.0, 8.0] {
        for y in [-1.0, 17.0] {
            for z in [-5.0, 2.0, 7.0] {
                assert_eq!(f(mixed.interp(d(x), d(y), d(z)).unwrap()), odd(x, y, z));
            }
        }
    }
    // Where it is rounded, the last point may be missed.
    let steep = surface(&[0.0, 1.0], &[0.0, 1.0], &[0.0, 1.0], |x, _, _| if x == 0.0 { 1.0 } else { 1e-20 });
    assert_eq!(f(steep.interp(d(1.0), d(0.0), d(0.0)).unwrap()), 0.0);
}

#[test]
fn first_bad_coordinate_is_reported() {
    let s = surface(&[1.0, 4.0], &[64.0, 128.0], &[0.0, 256.0], |b, _, _| b);
    for (x, y, z, bad) in [
        (f64::NAN, f64::INFINITY, f64::NEG_INFINITY, f64::NAN),
        (1.0, f64::INFINITY, f64::NEG_INFINITY, f64::INFINITY),
        (1.0, 1.0, f64::NEG_INFINITY, f64::NEG_INFINITY),
    ] {
        match s.interp(d(x), d(y), d(z)) {
            Err(InterpolationError::NonFiniteCoordinate(v)) => assert_eq!(v.bits, bad.to_bits()),
            _ => panic!("a coordinate that is not finite was located"),
        }
    }
}

#[test]
fn bad_axes_are_reported() {
    let short = surface(&[1.0], &[64.0, 128.0], &[0.0, 256.0], |b, _, _| b);
    assert!(matches!(short.interp(d(1.0), d(1.0), d(1.0)), Err(InterpolationError::AxisTooShort)));
    let flat = surface(&[1.0, 2.0], &[64.0, 64.0], &[0.0], |b, _, _| b);
    assert!(matches!(flat.interp(d(1.0), d(1.0), d(1.0)), Err(InterpolationError::AxisNotIncreasing)));
    assert!(matches!(flat.interp(d(1.0), d(f64::NAN), d(1.0)), Err(InterpolationError::NonFiniteCoordinate(_))));
}

#[test]
fn axes_are_validated() {
    let check = |xs: &[f64]| validate_interpolation_axis(&ds(xs));
    assert!(check(&[1.0, 2.0]).is_ok());
    assert!(check(&[-5.0, -0.0, 1e-320, 1e300]).is_ok());
    assert!(matches!(check(&[]), Err(InterpolationError::AxisTooShort)));
    assert!(matches!(check(&[1.0]), Err(InterpolationError::AxisTooShort)));
    assert!(matches!(check(&[f64::NAN]), Err(InterpolationError::AxisTooShort)));
    for bad in [
        vec![1.0, 1.0],
        vec![2.0, 1.0],
        vec![-0.0, 0.0],
        vec![1.0, 2.0, 2.0],
        vec![f64::NAN, 1.0],
        vec![1.0, f64::NAN],
        vec![1.0, 2.0, f64::INFINITY],
        vec![f64::NEG_INFINITY, 2.0],
    ] {
        assert!(matches!(check(&bad), Err(InterpolationError::AxisNotIncreasing)));
    }
}

#[test]
fn bounds_choose_the_cell() {
    let axis = ds(&[1.0, 2.0, 4.0, 8.0]);
    for (value, lower, position) in [
        (-3.0, 0, -4.0),
        (1.0, 0, 0.0),
        (1.5, 0, 0.5),
        (2.0, 1, 0.0),
        (3.0, 1, 0.5),
        (4.0, 2, 0.0),
        (7.0, 2, 0.75),
        (8.0, 2, 1.0),
        (16.0, 2, 3.0),
    ] {
        let (l, u, t) = interpolation_bounds(&axis, d(value)).unwrap();
        assert_eq!((l, u, f(t)), (lower, lower + 1, position));
    }
    assert!(matches!(
        interpolation_bounds(&ds(&[1.0]), d(f64::NAN)),
        Err(InterpolationError::NonFiniteCoordinate(_))
    ));
    assert!(matches!(interpolation_bounds(&ds(&[1.0]), d(0.0)), Err(InterpolationError::AxisTooShort)));
    assert!(matches!(interpolation_bounds(&ds(&[1.0, 0.0]), d(0.0)), Err(InterpolationError::AxisNotIncreasing)));
    // A cell wider than the largest number has no positions.
    let (_, _, t) = interpolation_bounds(&ds(&[-1.7e308, 1.7e308]), d(1.7e308)).unwrap();
    assert!(f(t).is_nan());
}

#[test]
fn lines_are_read_within_and_beyond_their_ends() {
    assert_eq!(f(lerp(d(2.0), d(6.0), d(0.0))), 2.0);
    assert_eq!(f(lerp(d(2.0), d(6.0), d(0.25))), 3.0);
    assert_eq!(f(lerp(d(2.0), d(6.0), d(1.0))), 6.0);
    assert_eq!(f(lerp(d(2.0), d(6.0), d(-1.0))), -2.0);
    assert_eq!(f(lerp(d(6.0), d(2.0), d(2.0))), -2.0);
    assert_eq!(f(lerp(d(0.1), d(0.7), d(0.3))), 0.1 + (0.7 - 0.1) * 0.3);
    // Level lines stay level, and position zero is the left end.
    for t in [-1e300, -0.3, 0.0, 0.1, 1.0, 7.7, f64::MAX] {
        assert_eq!(f(lerp(d(0.1), d(0.1), d(t))), 0.1);
        assert_eq!(f(lerp(d(-2.7), d(-2.7), d(t))), -2.7);
    }
    assert_eq!(f(lerp(d(-0.1), d(1e300), d(0.0))), -0.1);
    assert_eq!(f(lerp(d(0.3), d(-0.7), d(-0.0))), 0.3);
    // A rise beyond the largest number has no points.
    assert!(f(lerp(d(-1.7e308), d(1.7e308), d(0.0))).is_nan());
}

#[test]
fn lines_between_axis_points_give_the_coordinate_back() {
    let even = ds(&[1.0, 5.0, 9.0, 73.0]);
    for x in [-7.0, 1.0, 2.0, 5.0, 8.5, 9.0, 41.0, 73.0, 137.0] {
        let (l, u, t) = interpolation_bounds(&even, d(x)).unwrap();
        assert_eq!(f(lerp(even[l], even[u], t)), x);
    }
    let odd = ds(&[0.1, 0.7, 1.9]);
    for x in [-0.3, 0.1, 0.2, 0.65, 0.7, 1.3, 1.9, 2.3, 3.1] {
        let (l, u, t) = interpolation_bounds(&odd, d(x)).unwrap();
        // Points of at most two, coordinates at most two cells away.
        assert!((f(lerp(odd[l], odd[u], t)) - x).abs() <= 4.0 / (1u64 << 49) as f64);
    }
}

#[test]
fn grids_hold_one_element_for_each_index() {
    let values = ds(&[0.0, 1.0, 2.0, 3.0, 4.0, 5.0]);
    let grid = Grid::new((1, 2, 3), values.clone()).unwrap();
    assert_eq!(grid.dim(), (1, 2, 3));
    assert_eq!(f(grid.get(0, 1, 2)), 5.0);
    assert_eq!(f(grid.get(0, 1, 0)), 3.0);
    assert_eq!(grid.values().len(), 6);
    assert!(Grid::new((2, 2, 2), values.clone()).is_none());
    assert!(Grid::new((usize::MAX, usize::MAX, 1), values.clone()).is_none());
    assert!(Grid::new((usize::MAX, 2, 3), values).is_none());
    assert!(Grid::new((usize::MAX, usize::MAX, 0), Vec::new()).is_some());
    assert!(Grid::new((0, usize::MAX, usize::MAX), Vec::new()).is_some());
}
