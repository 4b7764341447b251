use vstd::prelude::*;

verus! {

/// Fixed-point steps per whole unit: a value carries three fractional
/// decimal digits, so one unit is 1000 steps.
pub const MILLI_SCALE: i64 = 1000;

/// Largest magnitude, in thousandths, that a reading may take: one million
/// whole units. The bound keeps every statistic over a rolling buffer of
/// such values inside `i128` arithmetic.
pub const VALUE_LIMIT_MILLI: i64 = 1_000_000_000;

/// A signed fixed-point number with three fractional decimal digits,
/// stored as a count of thousandths.
#[derive(Clone, Copy, PartialEq, Eq, Structural, Debug)]
pub struct Fixed {
    /// The value times 1000.
    pub milli: i64,
}

/// Whether a count of thousandths lies inside the representable range of a
/// reading.
pub open spec fn milli_in_range(m: int) -> bool {
    -VALUE_LIMIT_MILLI <= m <= VALUE_LIMIT_MILLI
}

impl Fixed {
    /// Whether this value lies inside the range the library admits for a
    /// reading.
    pub open spec fn wf(self) -> bool {
        milli_in_range(self.milli as int)
    }

    /// Builds a value from a count of thousandths.
    pub fn from_milli(m: i64) -> (r: Fixed)
        ensures
            r.milli == m,
    {
        Fixed { milli: m }
    }

}

} // verus!
