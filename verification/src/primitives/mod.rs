//! The event primitives: values anchored to an instant or to a span of time.

use vstd::prelude::*;

pub mod interval;
pub mod render;
pub mod time_point;

pub use interval::{IntervalError, TimeIntervalEvent};
pub use time_point::TimePointEvent;

verus! {

/// A point on the timeline, as an integer count of ticks. The unit is the
/// caller's to choose; timestamps are only ever compared and subtracted.
pub type Timestamp = i64;

} // verus!
