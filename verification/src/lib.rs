//! Set algebra over time points and half-open time intervals.

pub mod algebra;
pub mod primitives;
pub mod sequences;

pub use primitives::{IntervalError, TimeIntervalEvent, TimePointEvent, Timestamp};
pub use sequences::{TimeBound, TimeIntervalSequence, TimePointSequence};
