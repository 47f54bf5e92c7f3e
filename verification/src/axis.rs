//! Coordinate axes of a measured grid.

use ndarray_interp::InterpolateError;
use vstd::prelude::*;

use crate::double::{difference, quotient, Double};

verus! {

/// The error of an `ndarray_interp` interpolator, carried through unread.
#[verifier::external_type_specification]
#[verifier::external_body]
pub struct ExInterpolateError(InterpolateError);

/// Why an interpolation has no result.
#[derive(Debug)]
pub enum InterpolationError {
    /// A coordinate is infinite or not a number.
    NonFiniteCoordinate(Double),
    /// An axis has fewer than two points.
    AxisTooShort,
    /// An axis has a point that is not finite, or points out of order.
    AxisNotIncreasing,
    /// The interpolator of a table refused the coordinates.
    Table(InterpolateError),
}

/// Whether all points are finite.
pub open spec fn all_finite(axis: Seq<Double>) -> bool {
    forall|i: int| 0 <= i < axis.len() ==> (#[trigger] axis[i]).finite()
}

/// Whether the points are strictly increasing.
pub open spec fn increasing(axis: Seq<Double>) -> bool {
    forall|i: int, j: int|
        0 <= i < j < axis.len() ==> (#[trigger] axis[i]).value() < (#[trigger] axis[j]).value()
}

/// Whether an axis can be interpolated on.
pub open spec fn valid_axis(axis: Seq<Double>) -> bool {
    axis.len() >= 2 && all_finite(axis) && increasing(axis)
}

/// What is wrong with an axis, if anything is.
pub open spec fn axis_error(axis: Seq<Double>) -> Option<InterpolationError> {
    if axis.len() < 2 {
        Some(InterpolationError::AxisTooShort)
    } else if valid_axis(axis) {
        None
    } else {
        Some(InterpolationError::AxisNotIncreasing)
    }
}

/// What is wrong with locating a coordinate on an axis, if anything is.
pub open spec fn coordinate_error(axis: Seq<Double>, value: Double) -> Option<InterpolationError> {
    if value.finite() {
        axis_error(axis)
    } else {
        Some(InterpolationError::NonFiniteCoordinate(value))
    }
}

/// Whether the cell from point `i` to point `i + 1` is the one that serves a
/// coordinate: the cell that contains it, the first cell for a coordinate below
/// the axis, and the last cell for one at or above its end.
pub open spec fn serves(axis: Seq<Double>, value: Double, i: int) -> bool {
    &&& 0 <= i < axis.len() - 1
    &&& i > 0 ==> axis[i].value() <= value.value()
    &&& i < axis.len() - 2 ==> value.value() < axis[i + 1].value()
}

/// The cell that serves a coordinate.
pub open spec fn cell(axis: Seq<Double>, value: Double) -> int {
    choose|i: int| serves(axis, value, i)
}

/// Where a coordinate lies in a cell: zero at its lower point, one at its upper.
pub open spec fn position(axis: Seq<Double>, value: Double, i: int) -> Double {
    quotient(difference(value, axis[i]), difference(axis[i + 1], axis[i]))
}

/// Some cell of a valid axis serves a coordinate.
pub proof fn lemma_cell_exists(axis: Seq<Double>, value: Double)
    requires
        axis.len() >= 2,
    ensures
        serves(axis, value, cell(axis, value)),
{
    lemma_cell_from(axis, value, 0);
}

/// If a coordinate is not below point `i`, some cell from there on serves it.
proof fn lemma_cell_from(axis: Seq<Double>, value: Double, i: int)
    requires
        0 <= i < axis.len() - 1,
        i > 0 ==> axis[i].value() <= value.value(),
    ensures
        exists|c: int| serves(axis, value, c),
    decreases axis.len() - i,
{
    if i == axis.len() - 2 || value.value() < axis[i + 1].value() {
        assert(serves(axis, value, i));
    } else {
        lemma_cell_from(axis, value, i + 1);
    }
}

/// Only one cell of a valid axis serves a coordinate.
pub proof fn lemma_cell_unique(axis: Seq<Double>, value: Double, i: int)
    requires
        valid_axis(axis),
        serves(axis, value, i),
    ensures
        cell(axis, value) == i,
{
    let c = cell(axis, value);
    assert(serves(axis, value, c));
    if c < i {
        if c + 1 < i {
            assert(axis[c + 1].value() < axis[i].value());
        }
    } else if i < c {
        if i + 1 < c {
            assert(axis[i + 1].value() < axis[c].value());
        }
    }
}

/// An axis is accepted if and only if it has at least two points, all of them
/// finite, and each below the next. One that is too short is told apart from one
/// that is refused for its points.
pub proof fn law_axis_accepted(axis: Seq<Double>)
    ensures
        valid_axis(axis) <==> axis.len() >= 2 && (forall|i: int|
            0 <= i < axis.len() ==> (#[trigger] axis[i]).finite()) && (forall|i: int, next: int|
            #![trigger axis[i], axis[next]]
            0 <= i && next == i + 1 && next < axis.len() ==> axis[i].value()
                < axis[next].value()),
        axis_error(axis) is None <==> valid_axis(axis),
        axis_error(axis) == Some(InterpolationError::AxisTooShort) <==> axis.len() < 2,
        axis_error(axis) == Some(InterpolationError::AxisNotIncreasing) <==> axis.len() >= 2
            && !valid_axis(axis),
{
    if forall|i: int, next: int|
        #![trigger axis[i], axis[next]]
        0 <= i && next == i + 1 && next < axis.len() ==> axis[i].value() < axis[next].value() {
        assert forall|i: int, j: int| 0 <= i < j < axis.len() implies (
        #[trigger] axis[i]).value() < (#[trigger] axis[j]).value() by {
            lemma_increasing(axis, i, j);
        }
    }
}

/// Points each below the next are in order.
proof fn lemma_increasing(axis: Seq<Double>, i: int, j: int)
    requires
        0 <= i < j < axis.len(),
        forall|i: int, next: int|
            #![trigger axis[i], axis[next]]
            0 <= i && next == i + 1 && next < axis.len() ==> axis[i].value()
                < axis[next].value(),
    ensures
        axis[i].value() < axis[j].value(),
    decreases j - i,
{
    if i + 1 < j {
        lemma_increasing(axis, i, j - 1);
        assert(axis[j - 1].value() < axis[j].value());
    } else {
        assert(axis[i].value() < axis[j].value());
    }
}

/// Where a coordinate is located: from its last point on, an axis is continued by
/// its last cell, below its first point by its first cell, and in between a
/// coordinate lies in its cell, at the lower point or above it.
pub proof fn law_cell_located(axis: Seq<Double>, value: Double)
    requires
        valid_axis(axis),
        value.finite(),
    ensures
        axis[axis.len() - 1].value() <= value.value() ==> cell(axis, value) == axis.len() - 2,
        value.value() < axis[0].value() ==> cell(axis, value) == 0,
        axis[0].value() <= value.value() < axis[axis.len() - 1].value() ==> {
            &&& 0 <= cell(axis, value) < axis.len() - 1
            &&& axis[cell(axis, value)].value() <= value.value()
            &&& value.value() < axis[cell(axis, value) + 1].value()
        },
{
    lemma_cell_exists(axis, value);
    let c = cell(axis, value);
    if axis[axis.len() - 1].value() <= value.value() && c < axis.len() - 2 {
        assert(axis[c + 1].value() < axis[axis.len() - 1].value());
    }
    if value.value() < axis[0].value() && c > 0 {
        assert(axis[0].value() < axis[c].value());
    }
}

/// A coordinate is located if and only if it is finite and the axis is accepted. A
/// coordinate that is not finite is told before a fault of the axis.
pub proof fn law_coordinate_located(axis: Seq<Double>, value: Double)
    ensures
        !value.finite() ==> coordinate_error(axis, value) == Some(
            InterpolationError::NonFiniteCoordinate(value),
        ),
        value.finite() && axis.len() < 2 ==> coordinate_error(axis, value) == Some(
            InterpolationError::AxisTooShort,
        ),
        value.finite() && axis.len() >= 2 && !valid_axis(axis) ==> coordinate_error(axis, value)
            == Some(InterpolationError::AxisNotIncreasing),
        value.finite() && valid_axis(axis) ==> coordinate_error(axis, value) is None,
{
}

/// Checks that an axis has at least two points, all finite and strictly
/// increasing.
pub fn validate_interpolation_axis(axis: &[Double]) -> (r: Result<(), InterpolationError>)
    ensures
        r == match axis_error(axis@) {
            Some(e) => Err::<(), InterpolationError>(e),
            None => Ok(()),
        },
        r is Ok <==> axis@.len() >= 2 && (forall|i: int|
            0 <= i < axis@.len() ==> (#[trigger] axis@[i]).finite()) && (forall|i: int, j: int|
            0 <= i < j < axis@.len() ==> (#[trigger] axis@[i]).value() < (
            #[trigger] axis@[j]).value()),
        axis@.len() < 2 ==> r == Err::<(), InterpolationError>(InterpolationError::AxisTooShort),
        axis@.len() >= 2 && r is Err ==> r == Err::<(), InterpolationError>(
            InterpolationError::AxisNotIncreasing,
        ),
{
    if axis.len() < 2 {
        return Err(InterpolationError::AxisTooShort);
    }
    if !axis[0].is_finite() {
        return Err(InterpolationError::AxisNotIncreasing);
    }
    let mut i: usize = 1;
    while i < axis.len()
        invariant
            1 <= i <= axis@.len(),
            2 <= axis@.len(),
            forall|j: int| 0 <= j < i ==> (#[trigger] axis@[j]).finite(),
            forall|j: int, k: int|
                0 <= j < k < i ==> (#[trigger] axis@[j]).value() < (#[trigger] axis@[k]).value(),
        decreases axis@.len() - i,
    {
        if !axis[i].is_finite() || axis[i].at_most(axis[i - 1]) {
            return Err(InterpolationError::AxisNotIncreasing);
        }
        i = i + 1;
    }
    Ok(())
}

/// The number of points of a valid axis that are at most `value`.
fn points_up_to(axis: &[Double], value: Double) -> (upper: usize)
    requires
        valid_axis(axis@),
        value.finite(),
    ensures
        upper <= axis@.len(),
        forall|j: int| 0 <= j < upper ==> (#[trigger] axis@[j]).value() <= value.value(),
        forall|j: int| upper <= j < axis@.len() ==> value.value() < (#[trigger] axis@[j]).value(),
{
    let mut low: usize = 0;
    let mut high: usize = axis.len();
    while low < high
        invariant
            low <= high <= axis@.len(),
            valid_axis(axis@),
            value.finite(),
            forall|j: int| 0 <= j < low ==> (#[trigger] axis@[j]).value() <= value.value(),
            forall|j: int|
                high <= j < axis@.len() ==> value.value() < (#[trigger] axis@[j]).value(),
        decreases high - low,
    {
        let middle: usize = low + (high - low) / 2;
        if axis[middle].at_most(value) {
            low = middle + 1;
        } else {
            high = middle;
        }
    }
    low
}

/// The two points between which a coordinate is interpolated, and where it lies
/// between them. A coordinate outside the axis is given the nearest cell, and a
/// position outside the range from zero to one.
pub fn interpolation_bounds(axis: &[Double], value: Double) -> (r: Result<
    (usize, usize, Double),
    InterpolationError,
>)
    ensures
        match coordinate_error(axis@, value) {
            Some(e) => r == Err::<(usize, usize, Double), InterpolationError>(e),
            None => r matches Ok((lower, upper, t)) && {
                &&& lower == cell(axis@, value)
                &&& serves(axis@, value, lower as int)
                &&& upper == lower + 1
                &&& t == position(axis@, value, lower as int)
            },
        },
        r is Ok <==> value.finite() && axis@.len() >= 2 && (forall|i: int|
            0 <= i < axis@.len() ==> (#[trigger] axis@[i]).finite()) && (forall|i: int, j: int|
            0 <= i < j < axis@.len() ==> (#[trigger] axis@[i]).value() < (
            #[trigger] axis@[j]).value()),
        r matches Ok((lower, upper, t)) ==> {
            &&& upper == lower + 1
            &&& upper < axis@.len()
            &&& axis@[axis@.len() - 1].value() <= value.value() ==> lower == axis@.len() - 2
            &&& value.value() < axis@[0].value() ==> lower == 0
            &&& axis@[0].value() <= value.value() < axis@[axis@.len() - 1].value()
                ==> axis@[lower as int].value() <= value.value() < axis@[upper as int].value()
            &&& t == quotient(
                difference(value, axis@[lower as int]),
                difference(axis@[upper as int], axis@[lower as int]),
            )
        },
        !value.finite() ==> r == Err::<(usize, usize, Double), InterpolationError>(
            InterpolationError::NonFiniteCoordinate(value),
        ),
        value.finite() && axis@.len() < 2 ==> r == Err::<
            (usize, usize, Double),
            InterpolationError,
        >(InterpolationError::AxisTooShort),
        value.finite() && axis@.len() >= 2 && r is Err ==> r == Err::<
            (usize, usize, Double),
            InterpolationError,
        >(InterpolationError::AxisNotIncreasing),
{
    if !value.is_finite() {
        return Err(InterpolationError::NonFiniteCoordinate(value));
    }
    match validate_interpolation_axis(axis) {
        Err(e) => {
            return Err(e);
        },
        Ok(()) => {},
    }
    let upper: usize = points_up_to(axis, value);
    let (lower_index, upper_index) = if upper == 0 {
        (0usize, 1usize)
    } else if upper >= axis.len() {
        (axis.len() - 2, axis.len() - 1)
    } else {
        (upper - 1, upper)
    };
    proof {
        lemma_cell_unique(axis@, value, lower_index as int);
        law_cell_located(axis@, value);
    }
    let lower: Double = axis[lower_index];
    let t: Double = value.minus(lower).over(axis[upper_index].minus(lower));
    Ok((lower_index, upper_index, t))
}

} // verus!
