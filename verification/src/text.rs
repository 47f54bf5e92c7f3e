//! The words in which errors are reported.

use vstd::prelude::*;

use crate::axis::InterpolationError;
use crate::double::{Double, SIGN};
use crate::profile::{ArrayName, LoadError};

verus! {

/// The character of a decimal digit.
pub open spec fn digit(n: nat) -> char {
    (48 + n) as char
}

/// A natural in decimal notation, without leading zeros.
pub open spec fn decimal(n: nat) -> Seq<char>
    decreases n,
{
    if n < 10 {
        seq![digit(n)]
    } else {
        decimal(n / 10).push(digit(n % 10))
    }
}

/// How a number is written that is not finite. A finite number is not written by
/// any message.
pub open spec fn non_finite(value: Double) -> Seq<char> {
    if value.nan() {
        "NaN"@
    } else if value.negative() {
        "-inf"@
    } else {
        "inf"@
    }
}

/// Three naturals as a tuple.
pub open spec fn triple(dims: (usize, usize, usize)) -> Seq<char> {
    "("@ + decimal(dims.0 as nat) + ", "@ + decimal(dims.1 as nat) + ", "@ + decimal(
        dims.2 as nat,
    ) + ")"@
}

/// The digit as a text of one character.
fn write_digit(n: usize) -> (s: &'static str)
    requires
        n < 10,
    ensures
        s@ == seq![digit(n as nat)],
{
    proof {
        reveal_strlit("0");
        reveal_strlit("1");
        reveal_strlit("2");
        reveal_strlit("3");
        reveal_strlit("4");
        reveal_strlit("5");
        reveal_strlit("6");
        reveal_strlit("7");
        reveal_strlit("8");
        reveal_strlit("9");
    }
    match n {
        0 => "0",
        1 => "1",
        2 => "2",
        3 => "3",
        4 => "4",
        5 => "5",
        6 => "6",
        7 => "7",
        8 => "8",
        _ => "9",
    }
}

/// The natural that a text of decimal digits stands for.
pub open spec fn numeral(text: Seq<char>) -> int
    decreases text.len(),
{
    if text.len() == 0 {
        0
    } else {
        10 * numeral(text.drop_last()) + (text.last() as int - 48)
    }
}

/// Decimal notation stands for the number that was written: it is made of digits, has
/// no leading zero but for zero itself, and reads back as the number.
pub proof fn law_decimal_reads_back(n: nat)
    ensures
        numeral(decimal(n)) == n,
        decimal(n).len() > 0,
        forall|i: int| 0 <= i < decimal(n).len() ==> '0' <= #[trigger] decimal(n)[i] <= '9',
        n > 0 ==> decimal(n)[0] != '0',
        n < 10 ==> decimal(n).len() == 1,
        decimal(n).last() as int == 48 + n % 10,
        n >= 10 ==> decimal(n).drop_last() == decimal(n / 10),
    decreases n,
{
    if n < 10 {
        assert(decimal(n) =~= seq![digit(n)]);
        assert(seq![digit(n)].drop_last() =~= Seq::<char>::empty());
        assert(numeral(Seq::<char>::empty()) == 0);
    } else {
        law_decimal_reads_back(n / 10);
        let front = decimal(n / 10);
        assert(decimal(n) == front.push(digit(n % 10)));
        assert(front.push(digit(n % 10)).drop_last() =~= front);
        assert forall|i: int| 0 <= i < decimal(n).len() implies '0' <= #[trigger] decimal(n)[i]
            <= '9' by {
            if i < front.len() {
                assert(decimal(n)[i] == front[i]);
            }
        }
        assert(decimal(n)[0] == front[0]);
    }
}

/// The messages of errors that tell numbers, word by word.
pub proof fn law_load_errors_tell_numbers(
    values: (usize, usize, usize),
    axes: (usize, usize, usize),
    isl: usize,
    ttft: usize,
    rows: usize,
    cols: usize,
    active_kv: usize,
    context: usize,
)
    ensures
        (LoadError::GridShape { values, axes }).words()
            == "Batch-aware prefill array dimension mismatch: values="@ + ("("@ + decimal(
            values.0 as nat,
        ) + ", "@ + decimal(values.1 as nat) + ", "@ + decimal(values.2 as nat) + ")"@)
            + ", axes="@ + ("("@ + decimal(axes.0 as nat) + ", "@ + decimal(axes.1 as nat) + ", "@
            + decimal(axes.2 as nat) + ")"@),
        (LoadError::LegacyLength { isl, ttft }).words() == "Prefill array length mismatch: isl="@
            + decimal(isl as nat) + ", ttft="@ + decimal(ttft as nat),
        (LoadError::DecodeShape { rows, cols, active_kv, context }).words()
            == "Decode array dimension mismatch: itl shape=("@ + decimal(rows as nat) + ", "@
            + decimal(cols as nat) + "), active_kv="@ + decimal(active_kv as nat) + ", context="@
            + decimal(context as nat),
{
}

/// The messages of faults of an array and of a coordinate, word by word.
pub proof fn law_faults_are_named(array: ArrayName, cause: InterpolationError, value: Double)
    ensures
        (LoadError::InvalidAxis { array, cause }).words() == "Invalid "@ + array.name() + " axis"@,
        (LoadError::InvalidTimes).words()
            == "prefill_time_ms must contain only finite non-negative values"@,
        array.missing_words() == "Failed to load "@ + array.name() + " from NPZ"@,
        InterpolationError::NonFiniteCoordinate(value).words() == Some(
            "interpolation coordinate must be finite, got "@ + (if value.nan() {
                "NaN"@
            } else if value.negative() {
                "-inf"@
            } else {
                "inf"@
            }),
        ),
        InterpolationError::AxisTooShort.words() == Some(
            "interpolation axis must contain at least two points"@,
        ),
        InterpolationError::AxisNotIncreasing.words() == Some(
            "interpolation axis must be finite and strictly increasing"@,
        ),
        cause is Table <==> cause.words() is None,
{
}

/// Writes a natural in decimal notation.
pub fn write_decimal(n: usize) -> (s: String)
    ensures
        s@ == decimal(n as nat),
    decreases n,
{
    if n < 10 {
        write_digit(n).to_owned()
    } else {
        write_decimal(n / 10).concat(write_digit(n % 10))
    }
}

/// Writes three naturals as a tuple.
fn write_triple(dims: (usize, usize, usize)) -> (s: String)
    ensures
        s@ == triple(dims),
{
    let open: String = "(".to_owned().concat(write_decimal(dims.0).as_str()).concat(", ");
    open.concat(write_decimal(dims.1).as_str()).concat(", ").concat(
        write_decimal(dims.2).as_str(),
    ).concat(")")
}

impl InterpolationError {
    /// The message of the error; none for the error of a table, which has its own.
    pub open spec fn words(self) -> Option<Seq<char>> {
        match self {
            InterpolationError::NonFiniteCoordinate(value) => Some(
                "interpolation coordinate must be finite, got "@ + non_finite(value),
            ),
            InterpolationError::AxisTooShort => Some(
                "interpolation axis must contain at least two points"@,
            ),
            InterpolationError::AxisNotIncreasing => Some(
                "interpolation axis must be finite and strictly increasing"@,
            ),
            InterpolationError::Table(_) => None,
        }
    }

    /// The message of the error; none for the error of a table, which has its own.
    pub fn message(&self) -> (text: Option<String>)
        ensures
            match self.words() {
                Some(words) => text matches Some(s) && s@ == words,
                None => text is None,
            },
    {
        match self {
            InterpolationError::NonFiniteCoordinate(value) => {
                let shown: &str = if value.is_nan() {
                    "NaN"
                } else if value.bits >= SIGN {
                    "-inf"
                } else {
                    "inf"
                };
                Some("interpolation coordinate must be finite, got ".to_owned().concat(shown))
            },
            InterpolationError::AxisTooShort => Some(
                "interpolation axis must contain at least two points".to_owned(),
            ),
            InterpolationError::AxisNotIncreasing => Some(
                "interpolation axis must be finite and strictly increasing".to_owned(),
            ),
            InterpolationError::Table(_) => None,
        }
    }
}

impl ArrayName {
    /// The message when the array cannot be read.
    pub open spec fn missing_words(self) -> Seq<char> {
        "Failed to load "@ + self.name() + " from NPZ"@
    }

    /// The message when the array cannot be read.
    pub fn missing_message(self) -> (text: String)
        ensures
            text@ == self.missing_words(),
    {
        "Failed to load ".to_owned().concat(self.text()).concat(" from NPZ")
    }
}

impl LoadError {
    /// The message of the error.
    pub open spec fn words(self) -> Seq<char> {
        match self {
            LoadError::GridShape { values, axes } =>
                "Batch-aware prefill array dimension mismatch: values="@ + triple(values)
                    + ", axes="@ + triple(axes),
            LoadError::InvalidAxis { array, .. } => "Invalid "@ + array.name() + " axis"@,
            LoadError::InvalidTimes =>
                "prefill_time_ms must contain only finite non-negative values"@,
            LoadError::LegacyLength { isl, ttft } => "Prefill array length mismatch: isl="@
                + decimal(isl as nat) + ", ttft="@ + decimal(ttft as nat),
            LoadError::DecodeShape { rows, cols, active_kv, context } =>
                "Decode array dimension mismatch: itl shape=("@ + decimal(rows as nat) + ", "@
                    + decimal(cols as nat) + "), active_kv="@ + decimal(active_kv as nat)
                    + ", context="@ + decimal(context as nat),
        }
    }

    /// The message of the error.
    pub fn message(&self) -> (text: String)
        ensures
            text@ == self.words(),
    {
        match self {
            LoadError::GridShape { values, axes } =>
                "Batch-aware prefill array dimension mismatch: values=".to_owned().concat(
                write_triple(*values).as_str(),
            ).concat(", axes=").concat(write_triple(*axes).as_str()),
            LoadError::InvalidAxis { array, .. } => "Invalid ".to_owned().concat(
                array.text(),
            ).concat(" axis"),
            LoadError::InvalidTimes =>
                "prefill_time_ms must contain only finite non-negative values".to_owned(),
            LoadError::LegacyLength { isl, ttft } =>
                "Prefill array length mismatch: isl=".to_owned().concat(
                write_decimal(*isl).as_str(),
            ).concat(", ttft=").concat(write_decimal(*ttft).as_str()),
            LoadError::DecodeShape { rows, cols, active_kv, context } =>
                "Decode array dimension mismatch: itl shape=(".to_owned().concat(
                write_decimal(*rows).as_str(),
            ).concat(", ").concat(write_decimal(*cols).as_str()).concat("), active_kv=").concat(
                write_decimal(*active_kv).as_str(),
            ).concat(", context=").concat(write_decimal(*context).as_str()),
        }
    }
}

} // verus!
