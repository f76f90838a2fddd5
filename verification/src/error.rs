//! The ways a simulation can fail.

use vstd::prelude::*;

verus! {

/// Why a date could not be advanced or a schedule could not be produced.
#[derive(Clone, Copy, Debug, PartialEq, Eq, Structural)]
pub enum SimulationError {
    /// The cash injection is dated before the schedule starts, or the
    /// windfall series has a negative duration.
    InvalidCycleDuration,
    /// The loan was not retired within the longest schedule that is simulated.
    NonConvergentSchedule,
    /// A date fell outside the range of dates that can be represented.
    CalendarOverflow,
    /// A balance grew beyond the largest amount that can be represented.
    AmountOverflow,
}

} // verus!
