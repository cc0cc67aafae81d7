//! An always-ordered sequence of point events.

use vstd::prelude::*;
use vstd::std_specs::iter::IteratorSpec;

use crate::primitives::{TimePointEvent, Timestamp};
use crate::sequences::order::{
    key_is, lemma_filter_window, run_at, sort_by_time, stably_arranges, time_sorted, TimeKeyed,
};

verus! {

broadcast use vstd::seq_lib::group_filter_ensures;

/// One end of a window of instants: inclusive, exclusive, or absent.
#[derive(Debug, Clone, Copy, PartialEq, Eq)]
pub enum TimeBound {
    /// The window reaches this instant and includes it.
    Included(Timestamp),
    /// The window reaches up to this instant but excludes it.
    Excluded(Timestamp),
    /// The window is open on this side.
    Unbounded,
}

/// Whether the instant `ts` lies on the inner side of the window's start.
pub open spec fn after_start(b: TimeBound, ts: int) -> bool {
    match b {
        TimeBound::Included(t) => ts >= t,
        TimeBound::Excluded(t) => ts > t,
        TimeBound::Unbounded => true,
    }
}

/// Whether the instant `ts` lies on the inner side of the window's end.
pub open spec fn before_end(b: TimeBound, ts: int) -> bool {
    match b {
        TimeBound::Included(t) => ts <= t,
        TimeBound::Excluded(t) => ts < t,
        TimeBound::Unbounded => true,
    }
}

/// Whether an event lies strictly before the instant `t`.
pub open spec fn earlier_than<T>(t: int) -> spec_fn(TimePointEvent<T>) -> bool {
    |e: TimePointEvent<T>| e.spec_timestamp() < t
}

/// Whether an event lies at or before the instant `t`.
pub open spec fn not_later_than<T>(t: int) -> spec_fn(TimePointEvent<T>) -> bool {
    |e: TimePointEvent<T>| e.spec_timestamp() <= t
}

/// Whether an event lies at some instant other than `t`.
pub open spec fn elsewhere_than<T>(t: int) -> spec_fn(TimePointEvent<T>) -> bool {
    |e: TimePointEvent<T>| e.spec_timestamp() != t
}

/// Whether an event lies inside the window between `start` and `end`.
pub open spec fn in_window<T>(start: TimeBound, end: TimeBound) -> spec_fn(TimePointEvent<T>) -> bool {
    |e: TimePointEvent<T>| after_start(start, e.spec_timestamp()) && before_end(end, e.spec_timestamp())
}

/// How many events of `s` lie strictly before `t`.
pub open spec fn lower_index<T>(s: Seq<TimePointEvent<T>>, t: int) -> int {
    s.filter(earlier_than(t)).len() as int
}

/// How many events of `s` lie at or before `t`.
pub open spec fn upper_index<T>(s: Seq<TimePointEvent<T>>, t: int) -> int {
    s.filter(not_later_than(t)).len() as int
}

/// The window does not start after it ends: its start bound lies at or
/// before its end bound, and strictly before it when both are excluded.
pub open spec fn window_in_order(start: TimeBound, end: TimeBound) -> bool {
    match (start, end) {
        (TimeBound::Included(s), TimeBound::Included(e)) => s <= e,
        (TimeBound::Included(s), TimeBound::Excluded(e)) => s <= e,
        (TimeBound::Excluded(s), TimeBound::Included(e)) => s <= e,
        (TimeBound::Excluded(s), TimeBound::Excluded(e)) => s < e,
        _ => true,
    }
}

/// `s` with `e` placed after every event at or before its instant, which is
/// where an insertion puts it.
pub open spec fn insert_in_order<T>(s: Seq<TimePointEvent<T>>, e: TimePointEvent<T>) -> Seq<
    TimePointEvent<T>,
> {
    s.insert(upper_index(s, e.spec_timestamp()), e)
}

/// The events of `events` inserted one at a time, in order, into an empty
/// sequence.
pub open spec fn inserted_all<T>(events: Seq<TimePointEvent<T>>) -> Seq<TimePointEvent<T>>
    decreases events.len(),
{
    if events.len() == 0 {
        Seq::empty()
    } else {
        insert_in_order(inserted_all(events.drop_last()), events.last())
    }
}

/// The latest event at or before `t`: the last of those sharing the latest
/// such instant.
pub open spec fn latest_at_or_before<T>(s: Seq<TimePointEvent<T>>, t: int) -> Option<
    TimePointEvent<T>,
> {
    if upper_index(s, t) > 0 {
        Some(s[upper_index(s, t) - 1])
    } else {
        None
    }
}

/// The earliest event at or after `t`: the first of those sharing the
/// earliest such instant.
pub open spec fn earliest_at_or_after<T>(s: Seq<TimePointEvent<T>>, t: int) -> Option<
    TimePointEvent<T>,
> {
    if lower_index(s, t) < s.len() {
        Some(s[lower_index(s, t)])
    } else {
        None
    }
}

/// The distance between two instants.
pub open spec fn distance(a: int, b: int) -> int {
    if a >= b {
        a - b
    } else {
        b - a
    }
}

/// The event closest to `t` in either direction; a tie goes to the earlier.
pub open spec fn nearest_to<T>(s: Seq<TimePointEvent<T>>, t: int) -> Option<TimePointEvent<T>> {
    match (latest_at_or_before(s, t), earliest_at_or_after(s, t)) {
        (Some(x), Some(y)) => if distance(y.spec_timestamp(), t) < distance(
            x.spec_timestamp(),
            t,
        ) {
            Some(y)
        } else {
            Some(x)
        },
        (Some(x), None) => Some(x),
        (None, y) => y,
    }
}

/// The event behind an optional reference.
pub open spec fn deref_opt<E>(o: Option<&E>) -> Option<E> {
    match o {
        Some(e) => Some(*e),
        None => None,
    }
}

/// The distinct instants of `s`.
pub open spec fn instants_of<T>(s: Seq<TimePointEvent<T>>) -> Set<int> {
    s.map_values(|e: TimePointEvent<T>| e.spec_timestamp()).to_set()
}

/// Inserting in order into an ordered sequence keeps it ordered, and appends
/// the new event to the events at its instant.
pub proof fn lemma_insert_in_order<T>(s: Seq<TimePointEvent<T>>, e: TimePointEvent<T>)
    requires
        time_sorted(s),
    ensures
        time_sorted(insert_in_order(s, e)),
        forall|k: int| #[trigger] run_at(insert_in_order(s, e), k) == run_at(s.push(e), k),
{
    let t = e.spec_timestamp();
    let u = lemma_partition(s, t);
    let r = insert_in_order(s, e);
    assert(u == upper_index(s, t));
    assert(r =~= s.take(u) + seq![e] + s.skip(u));
    assert forall|i: int, j: int| 0 <= i <= j < r.len() implies #[trigger] r[i].time_key()
        <= #[trigger] r[j].time_key() by {
        if j < u {
            assert(s[i].time_key() <= s[j].time_key());
        } else if j == u {
            if i < u {
                assert(s[i].spec_timestamp() <= t);
            }
        } else if i < u {
            assert(s[i].time_key() <= s[j - 1].time_key());
        } else if i == u {
            assert(s[j - 1].spec_timestamp() > t);
        } else {
            assert(s[i - 1].time_key() <= s[j - 1].time_key());
        }
    }
    assert forall|k: int| #[trigger] run_at(r, k) == run_at(s.push(e), k) by {
        let p = key_is::<TimePointEvent<T>>(k);
        Seq::filter_distributes_over_add(s.take(u) + seq![e], s.skip(u), p);
        Seq::filter_distributes_over_add(s.take(u), seq![e], p);
        Seq::filter_distributes_over_add(s.take(u), s.skip(u), p);
        assert(s =~= s.take(u) + s.skip(u));
        s.lemma_filter_push(e, p);
        seq![e].lemma_filter_push(e, p);
        Seq::<TimePointEvent<T>>::empty().lemma_filter_push(e, p);
        assert(seq![e] =~= Seq::<TimePointEvent<T>>::empty().push(e));
        reveal(Seq::filter);
        if k == t {
            let sk = s.skip(u);
            assert forall|i: int| 0 <= i < sk.len() implies !p(#[trigger] sk[i]) by {
                assert(s[u + i].spec_timestamp() > t);
            }
            lemma_filter_window(sk, p, 0, 0);
            assert(sk.filter(p) =~= Seq::<TimePointEvent<T>>::empty());
            assert(s.filter(p) =~= s.take(u).filter(p));
        } else {
            assert(seq![e].filter(p) =~= Seq::<TimePointEvent<T>>::empty());
        }
    }
}

/// In an ordered sequence the events at or before `t` form a prefix, whose
/// length is the returned index.
pub proof fn lemma_partition<T>(s: Seq<TimePointEvent<T>>, t: int) -> (u: int)
    requires
        time_sorted(s),
    ensures
        u == upper_index(s, t),
        0 <= u <= s.len(),
        forall|i: int| 0 <= i < u ==> #[trigger] s[i].spec_timestamp() <= t,
        forall|i: int| u <= i < s.len() ==> #[trigger] s[i].spec_timestamp() > t,
    decreases s.len(),
{
    if s.len() == 0 {
        lemma_filter_window(s, not_later_than::<T>(t), 0, 0);
        0
    } else {
        let d = s.drop_last();
        let ud = lemma_partition(d, t);
        let n = s.len() as int;
        if s[n - 1].spec_timestamp() <= t {
            assert forall|i: int| 0 <= i < n implies #[trigger] s[i].spec_timestamp() <= t by {
                assert(s[i].time_key() <= s[n - 1].time_key());
            }
            lemma_filter_window(s, not_later_than::<T>(t), 0, n);
            n
        } else {
            assert forall|i: int| 0 <= i < ud implies #[trigger] s[i].spec_timestamp() <= t by {
                assert(d[i].spec_timestamp() <= t);
            }
            assert forall|i: int| ud <= i < n implies #[trigger] s[i].spec_timestamp() > t by {
                if i < n - 1 {
                    assert(d[i].spec_timestamp() > t);
                }
            }
            lemma_filter_window(s, not_later_than::<T>(t), 0, ud);
            ud
        }
    }
}

/// Cutting the run at `t` out of an ordered sequence: the run is the window
/// `[start, end)`, and what remains is the rest, still ordered.
proof fn lemma_cut_run<T>(s: Seq<TimePointEvent<T>>, t: int, start: int, end: int)
    requires
        0 <= start <= end <= s.len(),
        forall|i: int| 0 <= i < start ==> #[trigger] s[i].spec_timestamp() < t,
        forall|i: int| start <= i < end ==> #[trigger] s[i].spec_timestamp() == t,
        forall|i: int| end <= i < s.len() ==> #[trigger] s[i].spec_timestamp() > t,
    ensures
        run_at(s, t) == s.subrange(start, end),
        s.filter(elsewhere_than(t)) == s.subrange(0, start) + s.subrange(end, s.len() as int),
{
    let n = s.len() as int;
    lemma_filter_window(s, key_is::<TimePointEvent<T>>(t), start, end);
    let a = s.subrange(0, start);
    let b = s.subrange(start, end);
    let c = s.subrange(end, n);
    let p = elsewhere_than::<T>(t);
    assert(a.filter(p) == a) by {
        assert forall|i: int| 0 <= i < a.len() implies p(#[trigger] a[i]) by {
            assert(a[i] == s[i]);
        }
        lemma_filter_window(a, p, 0, a.len() as int);
        assert(a.subrange(0, a.len() as int) =~= a);
    }
    assert(b.filter(p) == Seq::<TimePointEvent<T>>::empty()) by {
        assert forall|i: int| 0 <= i < b.len() implies !p(#[trigger] b[i]) by {
            assert(b[i] == s[start + i]);
        }
        lemma_filter_window(b, p, 0, 0);
        assert(b.subrange(0, 0) =~= Seq::<TimePointEvent<T>>::empty());
    }
    assert(c.filter(p) == c) by {
        assert forall|i: int| 0 <= i < c.len() implies p(#[trigger] c[i]) by {
            assert(c[i] == s[end + i]);
        }
        lemma_filter_window(c, p, 0, c.len() as int);
        assert(c.subrange(0, c.len() as int) =~= c);
    }
    assert(s =~= a + b + c);
    lemma_filter_three(a, b, c, p);
    assert(a + Seq::<TimePointEvent<T>>::empty() + c =~= a + c);
}

/// Filtering three concatenated pieces filters each piece.
proof fn lemma_filter_three<A>(a: Seq<A>, b: Seq<A>, c: Seq<A>, p: spec_fn(A) -> bool)
    ensures
        (a + b + c).filter(p) == a.filter(p) + b.filter(p) + c.filter(p),
{
    Seq::filter_distributes_over_add(a + b, c, p);
    Seq::filter_distributes_over_add(a, b, p);
}

/// Cutting a window out of an ordered sequence leaves it ordered.
proof fn lemma_cut_keeps_order<T>(s: Seq<TimePointEvent<T>>, start: int, end: int)
    requires
        time_sorted(s),
        0 <= start <= end <= s.len(),
    ensures
        time_sorted(s.subrange(0, start) + s.subrange(end, s.len() as int)),
{
    let f = s.subrange(0, start) + s.subrange(end, s.len() as int);
    assert forall|i: int, j: int| 0 <= i <= j < f.len() implies #[trigger] f[i].time_key()
        <= #[trigger] f[j].time_key() by {
        let i0 = if i < start { i } else { i + (end - start) };
        let j0 = if j < start { j } else { j + (end - start) };
        assert(f[i] == s[i0]);
        assert(f[j] == s[j0]);
        assert(s[i0].time_key() <= s[j0].time_key());
    }
}

/// Inserting events one at a time arranges them exactly as a stable sort
/// does.
pub proof fn lemma_inserted_all_arranges<T>(events: Seq<TimePointEvent<T>>)
    ensures
        stably_arranges(inserted_all(events), events),
    decreases events.len(),
{
    if events.len() == 0 {
        assert forall|k: int| #[trigger] run_at(inserted_all(events), k) == run_at(events, k) by {
            assert(inserted_all(events) =~= events);
        }
    } else {
        let d = events.drop_last();
        let e = events.last();
        lemma_inserted_all_arranges(d);
        let prev = inserted_all(d);
        lemma_insert_in_order(prev, e);
        assert forall|k: int| #[trigger] run_at(inserted_all(events), k) == run_at(events, k) by {
            prev.lemma_filter_push(e, key_is::<TimePointEvent<T>>(k));
            d.lemma_filter_push(e, key_is::<TimePointEvent<T>>(k));
            assert(d.push(e) =~= events);
            assert(run_at(prev, k) == run_at(d, k));
        }
    }
}

/// However events arrive, building a sequence by inserting them one at a
/// time and building it from all of them at once give the same sequence:
/// any stable arrangement of the events equals the one-at-a-time result.
pub proof fn law_insertion_and_collection_agree<T>(
    events: Seq<TimePointEvent<T>>,
    collected: Seq<TimePointEvent<T>>,
)
    requires
        stably_arranges(collected, events),
    ensures
        collected == inserted_all(events),
{
    lemma_inserted_all_arranges(events);
    crate::sequences::order::lemma_stable_arrangement_unique(collected, inserted_all(events), events);
}

/// In an ordered sequence the events strictly before `t` form a prefix, whose
/// length is the returned index.
proof fn lemma_partition_below<T>(s: Seq<TimePointEvent<T>>, t: int) -> (l: int)
    requires
        time_sorted(s),
    ensures
        l == lower_index(s, t),
        0 <= l <= s.len(),
        forall|i: int| 0 <= i < l ==> #[trigger] s[i].spec_timestamp() < t,
        forall|i: int| l <= i < s.len() ==> #[trigger] s[i].spec_timestamp() >= t,
{
    assert(earlier_than::<T>(t) =~= not_later_than::<T>(t - 1));
    lemma_partition(s, t - 1)
}

/// `before(t)` answers with the last event at or before `t`: the answer lies
/// at or before `t` and every later event of the sequence lies after `t`.
/// There is no answer exactly when every event lies after `t`.
pub proof fn law_before_is_the_last_event_not_after<T>(s: Seq<TimePointEvent<T>>, t: int)
    requires
        time_sorted(s),
    ensures
        latest_at_or_before(s, t) is None <==> (forall|j: int|
            0 <= j < s.len() ==> #[trigger] s[j].spec_timestamp() > t),
        latest_at_or_before(s, t) matches Some(e) ==> exists|i: int|
            0 <= i < s.len() && s[i] == e && e.spec_timestamp() <= t && forall|j: int|
                i < j < s.len() ==> #[trigger] s[j].spec_timestamp() > t,
{
    let u = lemma_partition(s, t);
    if u > 0 {
        assert(s[u - 1].spec_timestamp() <= t);
    }
}

/// `after(t)` answers with the first event at or after `t`: the answer lies
/// at or after `t` and every earlier event of the sequence lies before `t`.
/// There is no answer exactly when every event lies before `t`.
pub proof fn law_after_is_the_first_event_not_before<T>(s: Seq<TimePointEvent<T>>, t: int)
    requires
        time_sorted(s),
    ensures
        earliest_at_or_after(s, t) is None <==> (forall|j: int|
            0 <= j < s.len() ==> #[trigger] s[j].spec_timestamp() < t),
        earliest_at_or_after(s, t) matches Some(e) ==> exists|i: int|
            0 <= i < s.len() && s[i] == e && e.spec_timestamp() >= t && forall|j: int|
                0 <= j < i ==> #[trigger] s[j].spec_timestamp() < t,
{
    let l = lemma_partition_below(s, t);
    if l < s.len() {
        assert(s[l].spec_timestamp() >= t);
    }
}

/// `nearest(t)` answers whenever the sequence is non-empty, with one of its
/// events, and no event of the sequence lies closer to `t`. Among events as
/// close as the answer, the answer is the earliest instant. The answer is
/// always the answer of `before(t)` or of `after(t)`.
pub proof fn law_nearest_is_closest<T>(s: Seq<TimePointEvent<T>>, t: int)
    requires
        time_sorted(s),
    ensures
        nearest_to(s, t) is None <==> s.len() == 0,
        nearest_to(s, t) matches Some(e) ==> {
            &&& exists|i: int| 0 <= i < s.len() && s[i] == e
            &&& forall|j: int|
                0 <= j < s.len() ==> (if e.spec_timestamp() >= t {
                    e.spec_timestamp() - t
                } else {
                    t - e.spec_timestamp()
                }) <= (if #[trigger] s[j].spec_timestamp() >= t {
                    s[j].spec_timestamp() - t
                } else {
                    t - s[j].spec_timestamp()
                })
            &&& forall|j: int|
                0 <= j < s.len() && (if e.spec_timestamp() >= t {
                    e.spec_timestamp() - t
                } else {
                    t - e.spec_timestamp()
                }) == (if #[trigger] s[j].spec_timestamp() >= t {
                    s[j].spec_timestamp() - t
                } else {
                    t - s[j].spec_timestamp()
                }) ==> e.spec_timestamp() <= s[j].spec_timestamp()
        },
        nearest_to(s, t) == latest_at_or_before(s, t) || nearest_to(s, t) == earliest_at_or_after(
            s,
            t,
        ),
{
    let u = lemma_partition(s, t);
    let l = lemma_partition_below(s, t);
    assert(l <= u) by {
        if u < l {
            assert(s[u].spec_timestamp() > t);
            assert(s[u].spec_timestamp() < t);
        }
    }
    if s.len() > 0 {
        if u > 0 {
            assert(s[u - 1].spec_timestamp() <= t);
        }
        if l < s.len() {
            assert(s[l].spec_timestamp() >= t);
        }
        assert forall|j: int| 0 <= j < s.len() implies (#[trigger] s[j].spec_timestamp() <= t ==> (
        u > 0 && s[j].spec_timestamp() <= s[u - 1].spec_timestamp())) && (s[j].spec_timestamp()
            >= t ==> (l < s.len() && s[l].spec_timestamp() <= s[j].spec_timestamp())) by {
            if s[j].spec_timestamp() <= t {
                assert(j < u);
                assert(s[j].time_key() <= s[u - 1].time_key());
            }
            if s[j].spec_timestamp() >= t {
                assert(j >= l);
                assert(s[l].time_key() <= s[j].time_key());
            }
        }
    }
}

/// `range(start, end)` keeps exactly the events on the inner side of both
/// bounds, each bound read on its own: an included bound keeps the events at
/// its instant, an excluded one drops them, an absent one keeps everything
/// on its side. Every event of the sequence inside the window is kept and
/// nothing else is.
pub proof fn law_range_keeps_exactly_the_window<T>(
    s: Seq<TimePointEvent<T>>,
    start: TimeBound,
    end: TimeBound,
)
    ensures
        forall|e: TimePointEvent<T>|
            #[trigger] in_window::<T>(start, end)(e) == ((match start {
                TimeBound::Included(a) => a <= e.spec_timestamp(),
                TimeBound::Excluded(a) => a < e.spec_timestamp(),
                TimeBound::Unbounded => true,
            }) && (match end {
                TimeBound::Included(b) => e.spec_timestamp() <= b,
                TimeBound::Excluded(b) => e.spec_timestamp() < b,
                TimeBound::Unbounded => true,
            })),
        forall|i: int|
            0 <= i < s.len() ==> (#[trigger] s.filter(in_window::<T>(start, end)).contains(s[i])
                <== ((match start {
                TimeBound::Included(a) => a <= s[i].spec_timestamp(),
                TimeBound::Excluded(a) => a < s[i].spec_timestamp(),
                TimeBound::Unbounded => true,
            }) && (match end {
                TimeBound::Included(b) => s[i].spec_timestamp() <= b,
                TimeBound::Excluded(b) => s[i].spec_timestamp() < b,
                TimeBound::Unbounded => true,
            }))),
        forall|k: int|
            0 <= k < s.filter(in_window::<T>(start, end)).len() ==> s.contains(
                #[trigger] s.filter(in_window::<T>(start, end))[k],
            ) && (match start {
                TimeBound::Included(a) => a <= s.filter(in_window::<T>(start, end))[k].spec_timestamp(),
                TimeBound::Excluded(a) => a < s.filter(in_window::<T>(start, end))[k].spec_timestamp(),
                TimeBound::Unbounded => true,
            }) && (match end {
                TimeBound::Included(b) => s.filter(in_window::<T>(start, end))[k].spec_timestamp() <= b,
                TimeBound::Excluded(b) => s.filter(in_window::<T>(start, end))[k].spec_timestamp() < b,
                TimeBound::Unbounded => true,
            }),
{
    let p = in_window::<T>(start, end);
    assert forall|i: int|
        0 <= i < s.len() && p(s[i]) implies #[trigger] s.filter(p).contains(s[i]) by {
        s.lemma_filter_contains(p, i);
    }
    let f = s.filter(p);
    assert forall|k: int| 0 <= k < f.len() implies s.contains(#[trigger] f[k]) && p(f[k]) by {
        s.lemma_filter_pred(p, k);
        assert(f.contains(f[k]));
        s.lemma_filter_contains_rev(p, f[k]);
    }
}

/// An insertion never displaces anything: the new event joins the end of the
/// run at its instant, and every other instant keeps its events.
pub proof fn law_insert_appends_to_its_instant<T>(s: Seq<TimePointEvent<T>>, e: TimePointEvent<T>)
    requires
        time_sorted(s),
    ensures
        run_at(insert_in_order(s, e), e.spec_timestamp()) == run_at(s, e.spec_timestamp()).push(e),
        forall|k: int|
            k != e.spec_timestamp() ==> #[trigger] run_at(insert_in_order(s, e), k) == run_at(s, k),
{
    lemma_insert_in_order(s, e);
    s.lemma_filter_push(e, key_is::<TimePointEvent<T>>(e.spec_timestamp()));
    assert forall|k: int| k != e.spec_timestamp() implies #[trigger] run_at(insert_in_order(s, e), k)
        == run_at(s, k) by {
        s.lemma_filter_push(e, key_is::<TimePointEvent<T>>(k));
    }
}

/// A collection of point events that is always in time order. Events may
/// arrive in any order and several may share an instant; the sequence reads
/// oldest first, and within one instant in the order the events were added.
#[derive(Debug, PartialEq, Eq)]
pub struct TimePointSequence<T> {
    events: Vec<TimePointEvent<T>>,
}

impl<T> View for TimePointSequence<T> {
    type V = Seq<TimePointEvent<T>>;

    closed spec fn view(&self) -> Seq<TimePointEvent<T>> {
        self.events@
    }
}

impl<T: Clone> Clone for TimePointSequence<T> {
    /// A copy holding a clone of every event, in the same order.
    fn clone(&self) -> (r: Self)
        ensures
            r@.len() == self@.len(),
            forall|i: int|
                0 <= i < self@.len() ==> #[trigger] r@[i].spec_timestamp()
                    == self@[i].spec_timestamp() && cloned::<T>(
                    self@[i].spec_value(),
                    r@[i].spec_value(),
                ),
    {
        proof {
            use_type_invariant(self);
        }
        let events = self.events.clone();
        proof {
            assert forall|i: int| 0 <= i < events@.len() implies #[trigger] events@[i].spec_timestamp()
                == self@[i].spec_timestamp() && cloned::<T>(
                self@[i].spec_value(),
                events@[i].spec_value(),
            ) by {
                assert(cloned::<TimePointEvent<T>>(self.events@[i], events@[i]));
            }
            assert forall|a: int, b: int| 0 <= a <= b < events@.len() implies #[trigger] events@[a].time_key()
                <= #[trigger] events@[b].time_key() by {
                assert(self@[a].time_key() <= self@[b].time_key());
            }
        }
        TimePointSequence { events }
    }
}

impl<T> Default for TimePointSequence<T> {
    /// An empty sequence.
    fn default() -> (r: Self)
        ensures
            r@ == Seq::<TimePointEvent<T>>::empty(),
    {
        TimePointSequence { events: Vec::new() }
    }
}

impl<T> TimePointSequence<T> {
    /// The events are in time order. Every value of the type satisfies it.
    #[verifier::type_invariant]
    pub open spec fn wf(&self) -> bool {
        time_sorted(self@)
    }

    /// Create an empty sequence.
    pub fn new() -> (r: Self)
        ensures
            r@ == Seq::<TimePointEvent<T>>::empty(),
    {
        TimePointSequence { events: Vec::new() }
    }

    /// Build a sequence from events in any order: sorted once by timestamp,
    /// stably, so events sharing an instant keep their order.
    pub fn from_events(events: Vec<TimePointEvent<T>>) -> (r: Self)
        ensures
            stably_arranges(r@, events@),
    {
        let mut events = events;
        sort_by_time(&mut events);
        TimePointSequence { events }
    }

    /// Consume the sequence and return its events, oldest first.
    pub fn into_events(self) -> (r: Vec<TimePointEvent<T>>)
        ensures
            r@ == self@,
    {
        self.events
    }

    /// How many events the sequence holds (not how many instants).
    pub fn len(&self) -> (r: usize)
        ensures
            r == self@.len(),
    {
        self.events.len()
    }

    /// Whether the sequence holds no events at all.
    pub fn is_empty(&self) -> (r: bool)
        ensures
            r == (self@.len() == 0),
    {
        self.events.is_empty()
    }

    /// Drop every event, leaving the sequence empty.
    pub fn clear(&mut self)
        ensures
            final(self)@ == Seq::<TimePointEvent<T>>::empty(),
    {
        *self = Self::new();
    }

    /// The whole sequence as a slice, oldest event first.
    pub fn as_slice(&self) -> (r: &[TimePointEvent<T>])
        ensures
            r@ == self@,
    {
        self.events.as_slice()
    }

    /// Index of the first event at or after `t`.
    fn lower_bound(&self, t: Timestamp) -> (r: usize)
        requires
            self.wf(),
        ensures
            r == lower_index(self@, t as int),
            forall|i: int| 0 <= i < r ==> #[trigger] self@[i].spec_timestamp() < t,
            forall|i: int| r <= i < self@.len() ==> #[trigger] self@[i].spec_timestamp() >= t,
    {
        let mut lo: usize = 0;
        let mut hi: usize = self.events.len();
        while lo < hi
            invariant
                0 <= lo <= hi <= self@.len(),
                self@ == self.events@,
                time_sorted(self@),
                forall|i: int| 0 <= i < lo ==> #[trigger] self@[i].spec_timestamp() < t,
                forall|i: int| hi <= i < self@.len() ==> #[trigger] self@[i].spec_timestamp() >= t,
            decreases hi - lo,
        {
            let mid = lo + (hi - lo) / 2;
            if self.events[mid].timestamp() < t {
                assert forall|i: int| 0 <= i < mid + 1 implies #[trigger] self@[i].spec_timestamp()
                    < t by {
                    assert(self@[i].time_key() <= self@[mid as int].time_key());
                }
                lo = mid + 1;
            } else {
                assert forall|i: int| mid <= i < self@.len() implies #[trigger] self@[i].spec_timestamp()
                    >= t by {
                    assert(self@[mid as int].time_key() <= self@[i].time_key());
                }
                hi = mid;
            }
        }
        proof {
            lemma_filter_window(self@, earlier_than::<T>(t as int), 0, lo as int);
        }
        lo
    }

    /// Index of the first event strictly after `t`.
    fn upper_bound(&self, t: Timestamp) -> (r: usize)
        requires
            self.wf(),
        ensures
            r == upper_index(self@, t as int),
            forall|i: int| 0 <= i < r ==> #[trigger] self@[i].spec_timestamp() <= t,
            forall|i: int| r <= i < self@.len() ==> #[trigger] self@[i].spec_timestamp() > t,
    {
        let mut lo: usize = 0;
        let mut hi: usize = self.events.len();
        while lo < hi
            invariant
                0 <= lo <= hi <= self@.len(),
                self@ == self.events@,
                time_sorted(self@),
                forall|i: int| 0 <= i < lo ==> #[trigger] self@[i].spec_timestamp() <= t,
                forall|i: int| hi <= i < self@.len() ==> #[trigger] self@[i].spec_timestamp() > t,
            decreases hi - lo,
        {
            let mid = lo + (hi - lo) / 2;
            if self.events[mid].timestamp() <= t {
                assert forall|i: int| 0 <= i < mid + 1 implies #[trigger] self@[i].spec_timestamp()
                    <= t by {
                    assert(self@[i].time_key() <= self@[mid as int].time_key());
                }
                lo = mid + 1;
            } else {
                assert forall|i: int| mid <= i < self@.len() implies #[trigger] self@[i].spec_timestamp()
                    > t by {
                    assert(self@[mid as int].time_key() <= self@[i].time_key());
                }
                hi = mid;
            }
        }
        proof {
            lemma_filter_window(self@, not_later_than::<T>(t as int), 0, lo as int);
        }
        lo
    }

    /// Add an event after every event at or before its instant: at the end
    /// when it belongs there, otherwise at the end of its instant's run.
    pub fn insert(&mut self, event: TimePointEvent<T>)
        ensures
            final(self)@ == insert_in_order(old(self)@, event),
    {
        proof {
            use_type_invariant(&*self);
        }
        let ghost s = self.events@;
        proof {
            lemma_insert_in_order(s, event);
        }
        let t = event.timestamp();
        let n = self.events.len();
        if n > 0 && self.events[n - 1].timestamp() > t {
            let index = self.upper_bound(t);
            let mut events = Vec::new();
            std::mem::swap(&mut events, &mut self.events);
            events.insert(index, event);
            self.events = events;
        } else {
            proof {
                let u = lemma_partition(s, t as int);
                if u < n {
                    assert(s[n - 1].spec_timestamp() > t);
                }
                assert(s.insert(n as int, event) =~= s.push(event));
            }
            let mut events = Vec::new();
            std::mem::swap(&mut events, &mut self.events);
            events.push(event);
            self.events = events;
        }
    }

    /// Remove every event at `timestamp` and return them in order; the rest
    /// stay, in order.
    pub fn remove(&mut self, timestamp: Timestamp) -> (r: Vec<TimePointEvent<T>>)
        ensures
            r@ == run_at(old(self)@, timestamp as int),
            final(self)@ == old(self)@.filter(elsewhere_than(timestamp as int)),
    {
        proof {
            use_type_invariant(&*self);
        }
        let ghost s = self.events@;
        let start = self.lower_bound(timestamp);
        let end = self.upper_bound(timestamp);
        if end < start {
            assert(s[end as int].spec_timestamp() > timestamp);
        }
        assert forall|i: int| start <= i < end implies #[trigger] s[i].spec_timestamp() == timestamp by {}
        let mut events = Vec::new();
        std::mem::swap(&mut events, &mut self.events);
        let mut tail = events.split_off(end);
        let removed = events.split_off(start);
        events.append(&mut tail);
        proof {
            lemma_cut_run(s, timestamp as int, start as int, end as int);
            lemma_cut_keeps_order(s, start as int, end as int);
            assert(events@ =~= s.subrange(0, start as int) + s.subrange(end as int, s.len() as int));
        }
        self.events = events;
        removed
    }

    /// The events recorded at `timestamp`, in the order they were added.
    pub fn get(&self, timestamp: Timestamp) -> (r: &[TimePointEvent<T>])
        ensures
            r@ == run_at(self@, timestamp as int),
    {
        proof {
            use_type_invariant(self);
        }
        let start = self.lower_bound(timestamp);
        let end = self.upper_bound(timestamp);
        if end < start {
            assert(self@[end as int].spec_timestamp() > timestamp);
        }
        proof {
            lemma_filter_window(
                self@,
                key_is::<TimePointEvent<T>>(timestamp as int),
                start as int,
                end as int,
            );
        }
        &self.events.as_slice()[start..end]
    }

    /// Whether any event was recorded at `timestamp`.
    pub fn contains(&self, timestamp: Timestamp) -> (r: bool)
        ensures
            r == (exists|i: int| 0 <= i < self@.len() && #[trigger] self@[i].spec_timestamp() == timestamp),
    {
        proof {
            use_type_invariant(self);
        }
        let start = self.lower_bound(timestamp);
        let end = self.upper_bound(timestamp);
        proof {
            if start < end {
                assert(self@[start as int].spec_timestamp() == timestamp);
            }
        }
        start < end
    }

    /// The event at position `index`, counting from the oldest.
    pub fn nth(&self, index: usize) -> (r: Option<&TimePointEvent<T>>)
        ensures
            deref_opt(r) == (if index < self@.len() {
                Some(self@[index as int])
            } else {
                None
            }),
    {
        if index < self.events.len() {
            Some(&self.events[index])
        } else {
            None
        }
    }

    /// Walk every event, oldest first.
    pub fn iter(&self) -> (r: std::slice::Iter<'_, TimePointEvent<T>>)
        ensures
            r.remaining() == self@.as_ref(),
    {
        self.events.as_slice().iter()
    }

    /// The events whose timestamps fall inside the window between `start`
    /// and `end`, oldest first, as a slice of the sequence.
    ///
    /// The window's start may not lie after its end, and two excluded bounds
    /// may not be the same instant, as for `BTreeMap::range`.
    pub fn range(&self, start: TimeBound, end: TimeBound) -> (r: &[TimePointEvent<T>])
        requires
            window_in_order(start, end),
        ensures
            r@ == self@.filter(in_window(start, end)),
    {
        proof {
            use_type_invariant(self);
        }
        let lo = match start {
            TimeBound::Unbounded => 0,
            TimeBound::Included(t) => self.lower_bound(t),
            TimeBound::Excluded(t) => self.upper_bound(t),
        };
        let hi = match end {
            TimeBound::Unbounded => self.events.len(),
            TimeBound::Included(t) => self.upper_bound(t),
            TimeBound::Excluded(t) => self.lower_bound(t),
        };
        proof {
            assert forall|i: int| 0 <= i < lo implies !after_start(
                start,
                #[trigger] self@[i].spec_timestamp(),
            ) by {}
            assert forall|i: int| hi <= i < self@.len() implies !before_end(
                end,
                #[trigger] self@[i].spec_timestamp(),
            ) by {}
            if hi < lo {
                let x = self@[hi as int].spec_timestamp();
                assert(!after_start(start, x) && !before_end(end, x));
            }
            let p = in_window::<T>(start, end);
            assert forall|i: int| 0 <= i < lo implies !p(#[trigger] self@[i]) by {}
            assert forall|i: int| lo <= i < hi implies p(#[trigger] self@[i]) by {}
            assert forall|i: int| hi <= i < self@.len() implies !p(#[trigger] self@[i]) by {}
            lemma_filter_window(self@, p, lo as int, hi as int);
        }
        &self.events.as_slice()[lo..hi]
    }

    /// The earliest event, or `None` when the sequence is empty.
    pub fn first(&self) -> (r: Option<&TimePointEvent<T>>)
        ensures
            deref_opt(r) == (if self@.len() > 0 {
                Some(self@[0])
            } else {
                None
            }),
    {
        self.events.as_slice().first()
    }

    /// The latest event (the last of those sharing the latest instant), or
    /// `None` when the sequence is empty.
    pub fn last(&self) -> (r: Option<&TimePointEvent<T>>)
        ensures
            deref_opt(r) == (if self@.len() > 0 {
                Some(self@.last())
            } else {
                None
            }),
    {
        self.events.as_slice().last()
    }

    /// The last event at or before `timestamp`; the bound is inclusive.
    pub fn before(&self, timestamp: Timestamp) -> (r: Option<&TimePointEvent<T>>)
        ensures
            deref_opt(r) == latest_at_or_before(self@, timestamp as int),
    {
        proof {
            use_type_invariant(self);
        }
        let end = self.upper_bound(timestamp);
        if end == 0 {
            None
        } else {
            Some(&self.events[end - 1])
        }
    }

    /// The first event at or after `timestamp`; the bound is inclusive.
    pub fn after(&self, timestamp: Timestamp) -> (r: Option<&TimePointEvent<T>>)
        ensures
            deref_opt(r) == earliest_at_or_after(self@, timestamp as int),
    {
        proof {
            use_type_invariant(self);
        }
        let start = self.lower_bound(timestamp);
        if start < self.events.len() {
            Some(&self.events[start])
        } else {
            None
        }
    }

    /// The event closest in time to `timestamp`, in either direction. An
    /// exact match wins; a tie between one before and one after goes to the
    /// earlier. `None` only when the sequence is empty.
    pub fn nearest(&self, timestamp: Timestamp) -> (r: Option<&TimePointEvent<T>>)
        ensures
            deref_opt(r) == nearest_to(self@, timestamp as int),
            r.is_none() == (self@.len() == 0),
    {
        proof {
            use_type_invariant(self);
        }
        let earlier = self.before(timestamp);
        let later = self.after(timestamp);
        proof {
            let t = timestamp as int;
            if self@.len() > 0 && earlier.is_none() {
                let l = lower_index(self@, t);
                let u = lemma_partition(self@, t);
                assert(self@[0].spec_timestamp() > t);
                assert(l == 0) by {
                    lemma_filter_window(self@, earlier_than::<T>(t), 0, 0);
                }
            }
        }
        match (earlier, later) {
            (Some(e), Some(l)) => {
                let t = timestamp as i128;
                let de = if (e.timestamp() as i128) >= t {
                    (e.timestamp() as i128) - t
                } else {
                    t - (e.timestamp() as i128)
                };
                let dl = if (l.timestamp() as i128) >= t {
                    (l.timestamp() as i128) - t
                } else {
                    t - (l.timestamp() as i128)
                };
                if dl < de {
                    Some(l)
                } else {
                    Some(e)
                }
            },
            (Some(e), None) => Some(e),
            (None, l) => l,
        }
    }

    /// How many distinct instants the sequence covers.
    pub fn instant_count(&self) -> (r: usize)
        ensures
            r == instants_of(self@).len(),
    {
        proof {
            use_type_invariant(self);
        }
        let n = self.events.len();
        let mut count: usize = 0;
        let mut i: usize = 0;
        let ghost s = self@;
        proof {
            assert(instants_of(s.take(0)) =~= Set::<int>::empty());
        }
        while i < n
            invariant
                n == s.len(),
                s == self@,
                self@ == self.events@,
                time_sorted(s),
                0 <= i <= n,
                count <= i,
                count == instants_of(s.take(i as int)).len(),
            decreases n - i,
        {
            let ghost prev = instants_of(s.take(i as int));
            let ts = self.events[i].timestamp();
            let fresh = i == 0 || self.events[i - 1].timestamp() != ts;
            proof {
                let f = |e: TimePointEvent<T>| e.spec_timestamp();
                assert(s.take(i + 1) =~= s.take(i as int).push(s[i as int]));
                s.take(i as int).lemma_push_map_commute(f, s[i as int]);
                s.take(i as int).map_values(f).lemma_push_to_set_commute(ts as int);
                assert(instants_of(s.take(i + 1)) == prev.insert(ts as int));
                vstd::seq_lib::seq_to_set_is_finite(s.take(i as int).map_values(f));
                if fresh {
                    if prev.contains(ts as int) {
                        let m = s.take(i as int).map_values(f);
                        let j = choose|j: int| 0 <= j < m.len() && m[j] == ts;
                        assert(s[j].time_key() <= s[i - 1].time_key());
                        assert(s[i - 1].time_key() <= s[i as int].time_key());
                    }
                } else {
                    let m = s.take(i as int).map_values(f);
                    assert(m[i - 1] == ts);
                    assert(prev.contains(ts as int));
                }
            }
            if fresh {
                count = count + 1;
            }
            i = i + 1;
        }
        proof {
            assert(s.take(n as int) =~= s);
        }
        count
    }

    /// Add every event of `events`, keeping the order: appended at the end,
    /// then sorted once only when the additions broke the order.
    pub fn extend(&mut self, events: Vec<TimePointEvent<T>>)
        ensures
            stably_arranges(final(self)@, old(self)@ + events@),
    {
        proof {
            use_type_invariant(&*self);
        }
        let ghost s = self.events@;
        let mut held = Vec::new();
        std::mem::swap(&mut held, &mut self.events);
        let old_len = held.len();
        let seam = if old_len > 0 {
            old_len - 1
        } else {
            0
        };
        let mut events = events;
        held.append(&mut events);
        let ghost c = held@;
        let n = held.len();
        let mut ordered = true;
        let mut i: usize = seam;
        proof {
            assert forall|a: int, b: int| 0 <= a <= b < c.len() && b <= seam implies #[trigger] c[a].time_key()
                <= #[trigger] c[b].time_key() by {
                if old_len > 0 {
                    assert(s[a].time_key() <= s[b].time_key());
                }
            }
        }
        while ordered && i + 1 < n
            invariant
                n == c.len(),
                held@ == c,
                seam <= i,
                i < n || i == 0,
                ordered ==> forall|a: int, b: int|
                    0 <= a <= b < c.len() && b <= i ==> #[trigger] c[a].time_key()
                        <= #[trigger] c[b].time_key(),
            decreases n - i + (if ordered { 1int } else { 0int }),
        {
            if held[i].timestamp() > held[i + 1].timestamp() {
                ordered = false;
            } else {
                proof {
                    assert forall|a: int, b: int| 0 <= a <= b < c.len() && b <= i + 1 implies #[trigger] c[a].time_key()
                        <= #[trigger] c[b].time_key() by {
                        if b == i + 1 && a <= i {
                            assert(c[a].time_key() <= c[i as int].time_key());
                        }
                    }
                }
                i = i + 1;
            }
        }
        if ordered {
            proof {
                assert forall|a: int, b: int| 0 <= a <= b < c.len() implies #[trigger] c[a].time_key()
                    <= #[trigger] c[b].time_key() by {
                    if n > 0 {
                        assert(i + 1 >= n);
                    }
                }
            }
        } else {
            sort_by_time(&mut held);
        }
        self.events = held;
    }
}

} // verus!
