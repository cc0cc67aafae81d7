//! Ordered collections of temporal events.

pub mod interval;
pub mod order;
pub mod time_point;

pub use interval::TimeIntervalSequence;
pub use time_point::{TimeBound, TimePointSequence};
