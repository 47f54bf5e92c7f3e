//! The batch-aware prefill timing surface.

use vstd::prelude::*;

use crate::axis::{cell, coordinate_error, interpolation_bounds, position, InterpolationError};
use crate::double::{difference, product, sum, Double};
use crate::interpolator::PrefillInterpolator;

verus! {

/// The point at `position` on the line from `left` at zero to `right` at one.
pub open spec fn on_line(left: Double, right: Double, position: Double) -> Double {
    sum(left, product(difference(right, left), position))
}

/// Linear interpolation between two numbers.
pub fn lerp(left: Double, right: Double, position: Double) -> (r: Double)
    ensures
        r == on_line(left, right, position),
{
    left.plus(right.minus(left).times(position))
}

/// A three-dimensional array of numbers in row-major order.
pub struct Grid {
    dims: (usize, usize, usize),
    values: Vec<Double>,
}

/// Where the element `(i, j, k)` of a row-major array of the given extents is.
pub open spec fn offset(dims: (usize, usize, usize), i: int, j: int, k: int) -> int {
    (i * dims.1 + j) * dims.2 + k
}

/// Elements within the extents lie within the array, in the order of their
/// indices.
pub proof fn lemma_offset(dims: (usize, usize, usize), i: int, j: int, k: int)
    requires
        0 <= i < dims.0,
        0 <= j < dims.1,
        0 <= k < dims.2,
    ensures
        0 <= i * dims.1,
        0 <= i * dims.1 + j < dims.0 * dims.1,
        0 <= (i * dims.1 + j) * dims.2,
        0 <= offset(dims, i, j, k) < dims.0 * dims.1 * dims.2,
{
    let row = i * dims.1 + j;
    assert(0 <= i * dims.1 && i * dims.1 + dims.1 <= dims.0 * dims.1) by (nonlinear_arith)
        requires
            0 <= i,
            i + 1 <= dims.0,
    ;
    assert(0 <= row * dims.2 && row * dims.2 + dims.2 <= dims.0 * dims.1 * dims.2)
        by (nonlinear_arith)
        requires
            0 <= row,
            row + 1 <= dims.0 * dims.1,
    ;
}

impl Grid {
    /// The extents.
    pub closed spec fn extents(self) -> (usize, usize, usize) {
        self.dims
    }

    /// The elements in row-major order.
    pub closed spec fn elements(self) -> Seq<Double> {
        self.values@
    }

    /// The element at the given indices.
    pub open spec fn element(self, i: int, j: int, k: int) -> Double {
        self.elements()[offset(self.extents(), i, j, k)]
    }

    /// There is one element for each combination of indices.
    #[verifier::type_invariant]
    spec fn complete(self) -> bool {
        self.dims.0 * self.dims.1 * self.dims.2 == self.values@.len()
    }

    /// An array of the given extents; none if the number of elements is not the
    /// product of the extents.
    pub fn new(dims: (usize, usize, usize), values: Vec<Double>) -> (r: Option<Grid>)
        ensures
            r is Some <==> dims.0 * dims.1 * dims.2 == values@.len(),
            r matches Some(grid) ==> grid.extents() == dims && grid.elements() == values@,
    {
        let product: Option<usize> = if dims.2 == 0 {
            Some(0)
        } else {
            match dims.0.checked_mul(dims.1) {
                None => None,
                Some(rows) => rows.checked_mul(dims.2),
            }
        };
        proof {
            let rows = dims.0 * dims.1;
            assert(values@.len() == values.len());
            assert(dims.2 == 0 ==> rows * dims.2 == 0) by (nonlinear_arith);
            assert(dims.2 > 0 ==> rows * dims.2 >= rows) by (nonlinear_arith)
                requires
                    rows >= 0,
            ;
        }
        match product {
            Some(n) => if n == values.len() {
                Some(Grid { dims, values })
            } else {
                None
            },
            None => None,
        }
    }

    /// The extents.
    pub fn dim(&self) -> (r: (usize, usize, usize))
        ensures
            r == self.extents(),
            self.elements().len() == r.0 * r.1 * r.2,
    {
        proof {
            use_type_invariant(self);
        }
        self.dims
    }

    /// The elements in row-major order.
    pub fn values(&self) -> (r: &Vec<Double>)
        ensures
            r@ == self.elements(),
    {
        &self.values
    }

    /// The element at the given indices.
    pub fn get(&self, i: usize, j: usize, k: usize) -> (r: Double)
        requires
            i < self.extents().0,
            j < self.extents().1,
            k < self.extents().2,
        ensures
            r == self.element(i as int, j as int, k as int),
    {
        proof {
            use_type_invariant(self);
            lemma_offset(self.dims, i as int, j as int, k as int);
            let rows = self.dims.0 * self.dims.1;
            assert(self.values@.len() == self.values.len());
            assert(rows <= rows * self.dims.2) by (nonlinear_arith)
                requires
                    rows >= 0,
                    self.dims.2 > 0,
            ;
        }
        self.values[(i * self.dims.1 + j) * self.dims.2 + k]
    }
}

/// Three-dimensional prefill timing surface over scheduler-local batch shape.
///
/// Axes are batch size, fresh tokens per request, and KV-read/prefix tokens per
/// request. Values are milliseconds. Linear extrapolation is intentional and
/// matches the legacy one-dimensional interpolator's behavior outside the
/// measured domain.
pub struct PrefillInterp3D {
    batch_size: Vec<Double>,
    new_tokens_per_request: Vec<Double>,
    kv_read_tokens_per_request: Vec<Double>,
    values_ms: Grid,
}

/// Blends the eight corners of the cell whose lowest corner is `(b, n, k)`, along
/// the first axis, then the second, then the third.
pub open spec fn blend(
    grid: Grid,
    b: int,
    n: int,
    k: int,
    bt: Double,
    nt: Double,
    kt: Double,
) -> Double {
    let c00 = on_line(grid.element(b, n, k), grid.element(b + 1, n, k), bt);
    let c01 = on_line(grid.element(b, n, k + 1), grid.element(b + 1, n, k + 1), bt);
    let c10 = on_line(grid.element(b, n + 1, k), grid.element(b + 1, n + 1, k), bt);
    let c11 = on_line(grid.element(b, n + 1, k + 1), grid.element(b + 1, n + 1, k + 1), bt);
    on_line(on_line(c00, c10, nt), on_line(c01, c11, nt), kt)
}

impl PrefillInterp3D {
    /// The measured batch sizes.
    pub closed spec fn batch_axis(self) -> Seq<Double> {
        self.batch_size@
    }

    /// The measured fresh tokens per request.
    pub closed spec fn fresh_axis(self) -> Seq<Double> {
        self.new_tokens_per_request@
    }

    /// The measured KV-read tokens per request.
    pub closed spec fn kv_axis(self) -> Seq<Double> {
        self.kv_read_tokens_per_request@
    }

    /// The measured times.
    pub closed spec fn times(self) -> Grid {
        self.values_ms
    }

    /// There is one measured time for each combination of axis points.
    #[verifier::type_invariant]
    spec fn matching(self) -> bool {
        &&& self.values_ms.extents().0 == self.batch_size@.len()
        &&& self.values_ms.extents().1 == self.new_tokens_per_request@.len()
        &&& self.values_ms.extents().2 == self.kv_read_tokens_per_request@.len()
    }

    /// The time at a point, or why there is none: the first coordinate that
    /// cannot be located, in the order of the axes, gives the error.
    pub open spec fn time_at(
        self,
        batch_size: Double,
        new_tokens_per_request: Double,
        prefix: Double,
    ) -> Result<Double, InterpolationError> {
        match (
            coordinate_error(self.batch_axis(), batch_size),
            coordinate_error(self.fresh_axis(), new_tokens_per_request),
            coordinate_error(self.kv_axis(), prefix),
        ) {
            (Some(e), _, _) => Err(e),
            (None, Some(e), _) => Err(e),
            (None, None, Some(e)) => Err(e),
            (None, None, None) => {
                let b = cell(self.batch_axis(), batch_size);
                let n = cell(self.fresh_axis(), new_tokens_per_request);
                let k = cell(self.kv_axis(), prefix);
                Ok(
                    blend(
                        self.times(),
                        b,
                        n,
                        k,
                        position(self.batch_axis(), batch_size, b),
                        position(self.fresh_axis(), new_tokens_per_request, n),
                        position(self.kv_axis(), prefix, k),
                    ),
                )
            },
        }
    }

    /// A surface over the given axes, with one time for each combination of axis
    /// points. The axes themselves are checked by each interpolation.
    pub fn new(
        batch_size: Vec<Double>,
        new_tokens_per_request: Vec<Double>,
        kv_read_tokens_per_request: Vec<Double>,
        values_ms: Grid,
    ) -> (r: PrefillInterp3D)
        requires
            values_ms.extents() == (
                batch_size.len(),
                new_tokens_per_request.len(),
                kv_read_tokens_per_request.len(),
            ),
        ensures
            r.batch_axis() == batch_size@,
            r.fresh_axis() == new_tokens_per_request@,
            r.kv_axis() == kv_read_tokens_per_request@,
            r.times() == values_ms,
    {
        PrefillInterp3D {
            batch_size,
            new_tokens_per_request,
            kv_read_tokens_per_request,
            values_ms,
        }
    }
}

impl PrefillInterpolator for PrefillInterp3D {
    open spec fn may_answer(
        &self,
        batch_size: Double,
        new_tokens_per_request: Double,
        prefix: Double,
        answer: Result<Double, InterpolationError>,
    ) -> bool {
        answer == self.time_at(batch_size, new_tokens_per_request, prefix)
    }

    fn interp(
        &self,
        batch_size: Double,
        new_tokens_per_request: Double,
        prefix: Double,
    ) -> (r: Result<Double, InterpolationError>)
        ensures
            r == self.time_at(batch_size, new_tokens_per_request, prefix),
    {
        proof {
            use_type_invariant(self);
        }
        let (b0, b1, bt) = match interpolation_bounds(self.batch_size.as_slice(), batch_size) {
            Ok(bounds) => bounds,
            Err(e) => {
                return Err(e);
            },
        };
        let (n0, n1, nt) = match interpolation_bounds(
            self.new_tokens_per_request.as_slice(),
            new_tokens_per_request,
        ) {
            Ok(bounds) => bounds,
            Err(e) => {
                return Err(e);
            },
        };
        let (k0, k1, kt) = match interpolation_bounds(
            self.kv_read_tokens_per_request.as_slice(),
            prefix,
        ) {
            Ok(bounds) => bounds,
            Err(e) => {
                return Err(e);
            },
        };

        let c000: Double = self.values_ms.get(b0, n0, k0);
        let c001: Double = self.values_ms.get(b0, n0, k1);
        let c010: Double = self.values_ms.get(b0, n1, k0);
        let c011: Double = self.values_ms.get(b0, n1, k1);
        let c100: Double = self.values_ms.get(b1, n0, k0);
        let c101: Double = self.values_ms.get(b1, n0, k1);
        let c110: Double = self.values_ms.get(b1, n1, k0);
        let c111: Double = self.values_ms.get(b1, n1, k1);

        let c00: Double = lerp(c000, c100, bt);
        let c01: Double = lerp(c001, c101, bt);
        let c10: Double = lerp(c010, c110, bt);
        let c11: Double = lerp(c011, c111, bt);
        let c0: Double = lerp(c00, c10, nt);
        let c1: Double = lerp(c01, c11, nt);
        Ok(lerp(c0, c1, kt))
    }
}

} // verus!
