//! The interval event primitive: a value attached to a half-open span of time.

use vstd::prelude::*;
use vstd::string::StringExecFns;

use super::render::{decimal, render_decimal};
use super::Timestamp;

verus! {

/// A value attached to the half-open span `[start, end)`.
///
/// `start` is covered and `end` is not, so two intervals that merely touch
/// share no instant. The span is never empty: `end` is always strictly after
/// `start`, which every constructor checks and the type invariant records.
#[derive(Debug, Copy, PartialEq, Eq, Hash)]
pub struct TimeIntervalEvent<T> {
    start: Timestamp,
    end: Timestamp,
    value: T,
}

/// Why an interval could not be built, or a bound could not be moved.
#[derive(Debug, Clone, Copy, PartialEq, Eq, Hash)]
#[non_exhaustive]
pub enum IntervalError {
    /// `end` was not strictly after `start`, so the span would be empty or
    /// inverted.
    EndNotAfterStart {
        /// The rejected start bound.
        start: Timestamp,
        /// The rejected end bound.
        end: Timestamp,
    },
    /// Moving `bound` by `shift` landed outside the range a timestamp can
    /// hold.
    BoundOverflow {
        /// The bound that could not be moved.
        bound: Timestamp,
        /// How far it was asked to move.
        shift: Timestamp,
    },
}

impl IntervalError {
    /// The human-readable description of the failure, naming the bounds.
    pub open spec fn message(&self) -> Seq<char> {
        match *self {
            IntervalError::EndNotAfterStart { start, end } => "interval end ("@ + decimal(
                end as int,
            ) + ") must be strictly after its start ("@ + decimal(start as int) + ")"@,
            IntervalError::BoundOverflow { bound, shift } => "shifting bound ("@ + decimal(
                bound as int,
            ) + ") by ("@ + decimal(shift as int) + ") leaves the timestamp range"@,
        }
    }

    /// Describe the failure in words, naming the offending bounds.
    pub fn to_string(&self) -> (r: String)
        ensures
            r@ == self.message(),
    {
        match *self {
            IntervalError::EndNotAfterStart { start, end } => {
                let mut s = String::from_str("interval end (");
                s.append(render_decimal(end).as_str());
                s.append(") must be strictly after its start (");
                s.append(render_decimal(start).as_str());
                s.append(")");
                s
            },
            IntervalError::BoundOverflow { bound, shift } => {
                let mut s = String::from_str("shifting bound (");
                s.append(render_decimal(bound).as_str());
                s.append(") by (");
                s.append(render_decimal(shift).as_str());
                s.append(") leaves the timestamp range");
                s
            },
        }
    }
}

/// The smaller of two integers.
pub open spec fn min_int(a: int, b: int) -> int {
    if a <= b { a } else { b }
}

/// The larger of two integers.
pub open spec fn max_int(a: int, b: int) -> int {
    if a >= b { a } else { b }
}

/// The bounds of a sequence of valueless spans, in order.
pub open spec fn bounds_seq(spans: Seq<TimeIntervalEvent<()>>) -> Seq<(int, int)> {
    spans.map_values(|s: TimeIntervalEvent<()>| (s.spec_start(), s.spec_end()))
}

impl<T: Clone> Clone for TimeIntervalEvent<T> {
    fn clone(&self) -> (r: Self)
        ensures
            r.spec_start() == self.spec_start(),
            r.spec_end() == self.spec_end(),
            cloned::<T>(self.spec_value(), r.spec_value()),
    {
        proof {
            use_type_invariant(self);
        }
        TimeIntervalEvent { start: self.start, end: self.end, value: self.value.clone() }
    }
}

impl<T> TimeIntervalEvent<T> {
    /// Every interval covers at least one instant.
    #[verifier::type_invariant]
    spec fn inv(&self) -> bool {
        self.start < self.end
    }

    /// The first instant covered by the span.
    pub closed spec fn spec_start(&self) -> int {
        self.start as int
    }

    /// The first instant past the span, which the span does not cover.
    pub closed spec fn spec_end(&self) -> int {
        self.end as int
    }

    /// The value carried by the span.
    pub closed spec fn spec_value(&self) -> T {
        self.value
    }

    /// The span is non-empty and its bounds are timestamps. Every exec value
    /// of this type satisfies it; laws over ghost values assume it.
    pub open spec fn valid(&self) -> bool {
        &&& self.spec_start() < self.spec_end()
        &&& i64::MIN <= self.spec_start()
        &&& self.spec_end() <= i64::MAX
    }

    /// Whether the instant `t` lies in `[start, end)`.
    pub open spec fn covers(&self, t: int) -> bool {
        self.spec_start() <= t < self.spec_end()
    }

    /// Where the overlap with `other` would start.
    pub open spec fn overlap_start<U>(&self, other: &TimeIntervalEvent<U>) -> int {
        max_int(self.spec_start(), other.spec_start())
    }

    /// Where the overlap with `other` would end.
    pub open spec fn overlap_end<U>(&self, other: &TimeIntervalEvent<U>) -> int {
        min_int(self.spec_end(), other.spec_end())
    }

    /// The two spans overlap or touch, so together they cover one unbroken
    /// span.
    pub open spec fn combines<U>(&self, other: &TimeIntervalEvent<U>) -> bool {
        self.spec_start() <= other.spec_end() && other.spec_start() <= self.spec_end()
    }

    /// The spans covered by either interval, as `(start, end)` pairs: one when
    /// they combine, otherwise both, ordered by start.
    pub open spec fn union_bounds<U>(&self, other: &TimeIntervalEvent<U>) -> Seq<(int, int)> {
        if self.combines(other) {
            seq![
                (
                    min_int(self.spec_start(), other.spec_start()),
                    max_int(self.spec_end(), other.spec_end()),
                ),
            ]
        } else if self.spec_start() <= other.spec_start() {
            seq![(self.spec_start(), self.spec_end()), (other.spec_start(), other.spec_end())]
        } else {
            seq![(other.spec_start(), other.spec_end()), (self.spec_start(), self.spec_end())]
        }
    }

    /// Attach `value` to the half-open span `[start, end)`.
    ///
    /// Fails with `EndNotAfterStart` exactly when `start >= end`, so both
    /// inverted and empty spans are rejected.
    pub fn new(start: Timestamp, end: Timestamp, value: T) -> (r: Result<Self, IntervalError>)
        ensures
            match r {
                Ok(iv) => {
                    &&& start < end
                    &&& iv.spec_start() == start
                    &&& iv.spec_end() == end
                    &&& iv.spec_value() == value
                },
                Err(e) => start >= end && e == (IntervalError::EndNotAfterStart { start, end }),
            },
    {
        if start < end {
            Ok(TimeIntervalEvent { start, end, value })
        } else {
            Err(IntervalError::EndNotAfterStart { start, end })
        }
    }

    /// The first instant covered by the span.
    pub fn start(&self) -> (r: Timestamp)
        ensures
            r == self.spec_start(),
            self.valid(),
    {
        proof {
            use_type_invariant(self);
        }
        self.start
    }

    /// The first instant past the span, which the span does not cover.
    pub fn end(&self) -> (r: Timestamp)
        ensures
            r == self.spec_end(),
            self.valid(),
    {
        proof {
            use_type_invariant(self);
        }
        self.end
    }

    /// The span as a `(start, end)` pair.
    pub fn bounds(&self) -> (r: (Timestamp, Timestamp))
        ensures
            r.0 == self.spec_start(),
            r.1 == self.spec_end(),
            self.valid(),
    {
        proof {
            use_type_invariant(self);
        }
        (self.start, self.end)
    }

    /// How long the span lasts: `end - start`, saturating at `i64::MAX` for a
    /// span wider than a timestamp can count. Always strictly positive.
    pub fn duration(&self) -> (r: i64)
        ensures
            r == min_int(self.spec_end() - self.spec_start(), i64::MAX as int),
            r > 0,
    {
        proof {
            use_type_invariant(self);
        }
        match self.end.checked_sub(self.start) {
            Some(d) => d,
            None => i64::MAX,
        }
    }

    /// The value carried by this interval.
    pub fn value(&self) -> (r: &T)
        ensures
            *r == self.spec_value(),
    {
        &self.value
    }

    /// Consume the interval and return its value, dropping the bounds.
    pub fn into_value(self) -> (r: T)
        ensures
            r == self.spec_value(),
    {
        self.value
    }

    /// Consume the interval and return its bounds and value.
    pub fn into_parts(self) -> (r: (Timestamp, Timestamp, T))
        ensures
            r.0 == self.spec_start(),
            r.1 == self.spec_end(),
            r.2 == self.spec_value(),
            r.0 < r.1,
    {
        proof {
            use_type_invariant(&self);
        }
        (self.start, self.end, self.value)
    }

    /// Transform the payload, keeping the same span. Cannot fail: the bounds
    /// are already valid and stay untouched.
    pub fn map<U, F: FnOnce(T) -> U>(self, f: F) -> (r: TimeIntervalEvent<U>)
        requires
            f.requires((self.spec_value(),)),
        ensures
            r.spec_start() == self.spec_start(),
            r.spec_end() == self.spec_end(),
            f.ensures((self.spec_value(),), r.spec_value()),
    {
        proof {
            use_type_invariant(&self);
        }
        let TimeIntervalEvent { start, end, value } = self;
        TimeIntervalEvent { start, end, value: f(value) }
    }

    /// The span where both intervals are active, or `None` where they never
    /// are. Intervals that merely touch share no instant, so they do not
    /// intersect. The result carries no value; neither input is consumed.
    pub fn intersection<U>(&self, other: &TimeIntervalEvent<U>) -> (r: Option<
        TimeIntervalEvent<()>,
    >)
        ensures
            match r {
                Some(s) => {
                    &&& self.overlap_start(other) < self.overlap_end(other)
                    &&& s.spec_start() == self.overlap_start(other)
                    &&& s.spec_end() == self.overlap_end(other)
                },
                None => self.overlap_start(other) >= self.overlap_end(other),
            },
    {
        let start = if self.start >= other.start {
            self.start
        } else {
            other.start
        };
        let end = if self.end <= other.end {
            self.end
        } else {
            other.end
        };
        if start < end {
            Some(TimeIntervalEvent::raw(start, end))
        } else {
            None
        }
    }

    /// The single span covering both intervals, or `None` when a gap
    /// separates them. Intervals that overlap or merely touch combine.
    pub fn merged<U>(&self, other: &TimeIntervalEvent<U>) -> (r: Option<TimeIntervalEvent<()>>)
        ensures
            match r {
                Some(s) => {
                    &&& self.combines(other)
                    &&& s.spec_start() == min_int(self.spec_start(), other.spec_start())
                    &&& s.spec_end() == max_int(self.spec_end(), other.spec_end())
                },
                None => !self.combines(other),
            },
    {
        proof {
            use_type_invariant(self);
            use_type_invariant(other);
        }
        if self.start <= other.end && other.start <= self.end {
            let start = if self.start <= other.start {
                self.start
            } else {
                other.start
            };
            let end = if self.end >= other.end {
                self.end
            } else {
                other.end
            };
            Some(TimeIntervalEvent::raw(start, end))
        } else {
            None
        }
    }

    /// The spans covered by either interval: one when they combine, two,
    /// ordered by start, when a gap keeps them apart.
    pub fn union<U>(&self, other: &TimeIntervalEvent<U>) -> (r: Vec<TimeIntervalEvent<()>>)
        ensures
            bounds_seq(r@) == self.union_bounds(other),
    {
        proof {
            use_type_invariant(self);
            use_type_invariant(other);
        }
        if let Some(merged) = self.merged(other) {
            let r = vec![merged];
            proof {
                assert(bounds_seq(r@) =~= self.union_bounds(other));
            }
            return r;
        }
        let mine = TimeIntervalEvent::raw(self.start, self.end);
        let theirs = TimeIntervalEvent::raw(other.start, other.end);
        let r = if self.start <= other.start {
            vec![mine, theirs]
        } else {
            vec![theirs, mine]
        };
        proof {
            assert(bounds_seq(r@) =~= self.union_bounds(other));
        }
        r
    }
}

impl TimeIntervalEvent<()> {
    /// Build a bare span `[start, end)` that carries no value; fails exactly
    /// as `new` does.
    pub fn span(start: Timestamp, end: Timestamp) -> (r: Result<Self, IntervalError>)
        ensures
            match r {
                Ok(iv) => start < end && iv.spec_start() == start && iv.spec_end() == end,
                Err(e) => start >= end && e == (IntervalError::EndNotAfterStart { start, end }),
            },
    {
        Self::new(start, end, ())
    }

    /// Build a span whose bounds the caller has already proved ordered.
    pub(crate) fn raw(start: Timestamp, end: Timestamp) -> (r: Self)
        requires
            start < end,
        ensures
            r.spec_start() == start,
            r.spec_end() == end,
    {
        TimeIntervalEvent { start, end, value: () }
    }

    /// The valueless span with the given bounds.
    pub closed spec fn spec_span(start: int, end: int) -> Self {
        TimeIntervalEvent { start: start as i64, end: end as i64, value: () }
    }

    /// A span built from timestamp bounds has exactly those bounds.
    pub proof fn lemma_spec_span(start: int, end: int)
        requires
            i64::MIN <= start <= i64::MAX,
            i64::MIN <= end <= i64::MAX,
        ensures
            Self::spec_span(start, end).spec_start() == start,
            Self::spec_span(start, end).spec_end() == end,
    {
    }

    /// Two valueless spans with the same bounds are the same span.
    pub proof fn lemma_same_bounds_same_span(a: Self, b: Self)
        requires
            a.spec_start() == b.spec_start(),
            a.spec_end() == b.spec_end(),
        ensures
            a == b,
    {
        assert(a.start == b.start && a.end == b.end);
        assert(a.value == b.value);
    }
}

/// The overlap of two intervals holds exactly the instants both cover, and
/// it is empty (the operation answers `None`) exactly when no instant is
/// covered by both; so touching intervals do not intersect. The overlap is
/// the same whichever interval it is taken from.
pub proof fn law_intersection_is_common_instants<A, B>(a: TimeIntervalEvent<A>, b: TimeIntervalEvent<B>)
    ensures
        forall|t: int|
            (a.overlap_start(&b) <= t < a.overlap_end(&b)) == (a.covers(t) && b.covers(t)),
        (a.overlap_start(&b) < a.overlap_end(&b)) == (exists|t: int| a.covers(t) && b.covers(t)),
        a.overlap_start(&b) == b.overlap_start(&a),
        a.overlap_end(&b) == b.overlap_end(&a),
{
    if a.overlap_start(&b) < a.overlap_end(&b) {
        let t = a.overlap_start(&b);
        assert(a.covers(t) && b.covers(t));
    }
}

/// Two valid intervals combine exactly when together they cover one unbroken
/// span: then the merged span covers precisely the instants either covers;
/// otherwise some instant between them is covered by neither.
pub proof fn law_merged_covers_either<A, B>(a: TimeIntervalEvent<A>, b: TimeIntervalEvent<B>)
    requires
        a.valid(),
        b.valid(),
    ensures
        a.combines(&b) ==> forall|t: int|
            (min_int(a.spec_start(), b.spec_start()) <= t < max_int(a.spec_end(), b.spec_end()))
                == (a.covers(t) || b.covers(t)),
        !a.combines(&b) ==> exists|t: int|
            min_int(a.spec_start(), b.spec_start()) <= t < max_int(a.spec_end(), b.spec_end())
                && !a.covers(t) && !b.covers(t),
        a.combines(&b) == b.combines(&a),
{
    if !a.combines(&b) {
        if a.spec_start() > b.spec_end() {
            let t = b.spec_end();
            assert(!a.covers(t) && !b.covers(t));
        } else {
            let t = a.spec_end();
            assert(!a.covers(t) && !b.covers(t));
        }
    }
}

/// Whether one of the `(start, end)` pairs covers the instant `t`.
pub open spec fn pairs_cover(r: Seq<(int, int)>, t: int) -> bool {
    exists|i: int| 0 <= i < r.len() && #[trigger] r[i].0 <= t && t < r[i].1
}

/// The union of two valid intervals covers exactly the instants either
/// covers; it is one span when they combine (what `merged` returns) and two
/// otherwise, ordered by start and separated by a gap; and it does not depend
/// on the order of the operands.
pub proof fn law_union_covers_either<A, B>(a: TimeIntervalEvent<A>, b: TimeIntervalEvent<B>)
    requires
        a.valid(),
        b.valid(),
    ensures
        forall|t: int| pairs_cover(a.union_bounds(&b), t) == (a.covers(t) || b.covers(t)),
        a.combines(&b) ==> a.union_bounds(&b) == seq![
            (min_int(a.spec_start(), b.spec_start()), max_int(a.spec_end(), b.spec_end())),
        ],
        !a.combines(&b) ==> a.union_bounds(&b).len() == 2,
        forall|i: int| 0 <= i < a.union_bounds(&b).len() ==> #[trigger] a.union_bounds(&b)[i].0
            < a.union_bounds(&b)[i].1,
        a.union_bounds(&b).len() == 2 ==> a.union_bounds(&b)[0].1 < a.union_bounds(&b)[1].0,
        a.union_bounds(&b) == b.union_bounds(&a),
{
    let r = a.union_bounds(&b);
    law_merged_covers_either(a, b);
    assert forall|t: int| pairs_cover(r, t) == (a.covers(t) || b.covers(t)) by {
        if a.combines(&b) {
            if pairs_cover(r, t) {
                assert(r[0].0 <= t < r[0].1);
            }
            if a.covers(t) || b.covers(t) {
                assert(r[0].0 <= t < r[0].1);
            }
        } else {
            if a.covers(t) {
                if a.spec_start() <= b.spec_start() {
                    assert(r[0].0 <= t < r[0].1);
                } else {
                    assert(r[1].0 <= t < r[1].1);
                }
            }
            if b.covers(t) {
                if a.spec_start() <= b.spec_start() {
                    assert(r[1].0 <= t < r[1].1);
                } else {
                    assert(r[0].0 <= t < r[0].1);
                }
            }
        }
    }
    assert(r =~= b.union_bounds(&a));
}

} // verus!
