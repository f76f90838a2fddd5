//! Day-by-day simulation of a single amortizing loan.
//!
//! [`cycle`] advances a date to the next occurrence of a recurring event.
//! [`simulator`] steps a loan one day at a time, charging interest and
//! applying repayments, a one-off cash injection and recurring windfalls,
//! until the loan is retired. [`schedule`] says what the schedule of a loan
//! is and what holds of every schedule; [`calendar`] and [`datetime`] hold
//! the dates that all of this runs on.
//!
//! Amounts are whole numbers of the currency's minor unit. Dates are days of
//! the proleptic Gregorian calendar with a second of the day.

pub mod calendar;
pub mod cycle;
pub mod datetime;
pub mod error;
pub mod schedule;
pub mod simulator;

pub use crate::cycle::{increment_date, Cycle};
pub use crate::datetime::DateTime;
pub use crate::error::SimulationError;
pub use crate::simulator::{simulate, Options, ScheduleEntry};
