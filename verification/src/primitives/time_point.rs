//! The point event primitive: a value observed at a single instant.

use vstd::prelude::*;

use super::Timestamp;

verus! {

/// A value observed at a single instant, with no duration. Any timestamp is
/// valid, including zero and negative ones.
#[derive(Debug, Copy, PartialEq, Eq, Hash)]
pub struct TimePointEvent<T> {
    timestamp: Timestamp,
    value: T,
}

impl<T: Clone> Clone for TimePointEvent<T> {
    /// The same instant, with a clone of the value.
    fn clone(&self) -> (r: Self)
        ensures
            r.spec_timestamp() == self.spec_timestamp(),
            cloned::<T>(self.spec_value(), r.spec_value()),
    {
        TimePointEvent { timestamp: self.timestamp, value: self.value.clone() }
    }
}

impl<T> TimePointEvent<T> {
    /// The instant this event is anchored to.
    pub closed spec fn spec_timestamp(&self) -> int {
        self.timestamp as int
    }

    /// The value carried by this event.
    pub closed spec fn spec_value(&self) -> T {
        self.value
    }

    /// Anchor `value` to `timestamp`.
    pub fn new(timestamp: Timestamp, value: T) -> (r: Self)
        ensures
            r.spec_timestamp() == timestamp,
            r.spec_value() == value,
    {
        TimePointEvent { timestamp, value }
    }

    /// The instant this event is anchored to.
    pub fn timestamp(&self) -> (r: Timestamp)
        ensures
            r == self.spec_timestamp(),
    {
        self.timestamp
    }

    /// The value carried by this event.
    pub fn value(&self) -> (r: &T)
        ensures
            *r == self.spec_value(),
    {
        &self.value
    }

    /// Consume the event and return its value, dropping the timestamp.
    pub fn into_value(self) -> (r: T)
        ensures
            r == self.spec_value(),
    {
        self.value
    }

    /// Consume the event and return its timestamp and value.
    pub fn into_parts(self) -> (r: (Timestamp, T))
        ensures
            r.0 == self.spec_timestamp(),
            r.1 == self.spec_value(),
    {
        (self.timestamp, self.value)
    }

    /// Transform the payload, keeping the same instant.
    pub fn map<U, F: FnOnce(T) -> U>(self, f: F) -> (r: TimePointEvent<U>)
        requires
            f.requires((self.spec_value(),)),
        ensures
            r.spec_timestamp() == self.spec_timestamp(),
            f.ensures((self.spec_value(),), r.spec_value()),
    {
        TimePointEvent { timestamp: self.timestamp, value: f(self.value) }
    }
}

} // verus!
