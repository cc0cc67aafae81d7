//! A normalized timeline of the spans during which one state was active.

use vstd::prelude::*;
use vstd::std_specs::iter::IteratorSpec;

use crate::primitives::interval::{bounds_seq, law_union_covers_either, max_int, pairs_cover};
use crate::primitives::{IntervalError, TimeIntervalEvent, Timestamp};
use crate::sequences::order::{
    lemma_same_runs_same_members, sort_by_time, time_sorted, TimeKeyed,
};

verus! {

/// Every span is a valid non-empty interval, and each ends strictly before
/// any later one starts: sorted by start, pairwise disjoint, never touching.
pub open spec fn normalized(s: Seq<TimeIntervalEvent<()>>) -> bool {
    &&& forall|i: int| 0 <= i < s.len() ==> #[trigger] s[i].valid()
    &&& forall|i: int, j: int|
        0 <= i < j < s.len() ==> #[trigger] s[i].spec_end() < #[trigger] s[j].spec_start()
}

/// Whether some span of `s` covers the instant `t`.
pub open spec fn spans_cover(s: Seq<TimeIntervalEvent<()>>, t: int) -> bool {
    exists|i: int| 0 <= i < s.len() && #[trigger] s[i].covers(t)
}

/// The spans during which one state was active, kept normalized: sorted by
/// start, pairwise disjoint, and with no two spans touching. Overlapping and
/// touching spans merge as they arrive, so the sequence records which
/// instants are covered rather than which spans were inserted.
#[derive(Debug, PartialEq, Eq)]
pub struct TimeIntervalSequence {
    spans: Vec<TimeIntervalEvent<()>>,
    /// The summed lengths of `spans`, kept up to date by every change so
    /// that reading the active duration costs nothing.
    total: u64,
}

impl View for TimeIntervalSequence {
    type V = Seq<TimeIntervalEvent<()>>;

    closed spec fn view(&self) -> Seq<TimeIntervalEvent<()>> {
        self.spans@
    }
}

impl Clone for TimeIntervalSequence {
    /// A copy holding the same spans.
    fn clone(&self) -> (r: Self)
        ensures
            r@ == self@,
    {
        proof {
            use_type_invariant(self);
        }
        let n = self.spans.len();
        let mut spans: Vec<TimeIntervalEvent<()>> = Vec::new();
        let mut i: usize = 0;
        while i < n
            invariant
                n == self.spans@.len(),
                0 <= i <= n,
                spans@ == self.spans@.take(i as int),
            decreases n - i,
        {
            spans.push(self.spans[i]);
            proof {
                assert(spans@ =~= self.spans@.take(i + 1));
            }
            i = i + 1;
        }
        proof {
            assert(spans@ =~= self.spans@);
        }
        TimeIntervalSequence { spans, total: self.total }
    }
}

impl Default for TimeIntervalSequence {
    /// An empty sequence, covering nothing.
    fn default() -> (r: Self)
        ensures
            r@ == Seq::<TimeIntervalEvent<()>>::empty(),
    {
        TimeIntervalSequence { spans: Vec::new(), total: 0 }
    }
}

/// Index of the first span ending at or after `t`; every span before it ends
/// before `t`.
fn first_ending_from(spans: &Vec<TimeIntervalEvent<()>>, t: Timestamp) -> (r: usize)
    requires
        normalized(spans@),
    ensures
        r <= spans@.len(),
        forall|i: int| 0 <= i < r ==> #[trigger] spans@[i].spec_end() < t,
        forall|i: int| r <= i < spans@.len() ==> #[trigger] spans@[i].spec_end() >= t,
{
    let mut lo: usize = 0;
    let mut hi: usize = spans.len();
    while lo < hi
        invariant
            0 <= lo <= hi <= spans@.len(),
            normalized(spans@),
            forall|i: int| 0 <= i < lo ==> #[trigger] spans@[i].spec_end() < t,
            forall|i: int| hi <= i < spans@.len() ==> #[trigger] spans@[i].spec_end() >= t,
        decreases hi - lo,
    {
        let mid = lo + (hi - lo) / 2;
        if spans[mid].end() < t {
            assert forall|i: int| 0 <= i < mid + 1 implies #[trigger] spans@[i].spec_end() < t by {
                if i < mid {
                    assert(spans@[i].spec_end() < spans@[mid as int].spec_start());
                    assert(spans@[mid as int].valid());
                }
            }
            lo = mid + 1;
        } else {
            assert forall|i: int| mid <= i < spans@.len() implies #[trigger] spans@[i].spec_end()
                >= t by {
                if i > mid {
                    assert(spans@[mid as int].spec_end() < spans@[i].spec_start());
                    assert(spans@[i].valid());
                }
            }
            hi = mid;
        }
    }
    lo
}

/// Index of the first span starting after `t`; every span before it starts
/// at or before `t`.
fn first_starting_after(spans: &Vec<TimeIntervalEvent<()>>, t: Timestamp) -> (r: usize)
    requires
        normalized(spans@),
    ensures
        r <= spans@.len(),
        forall|i: int| 0 <= i < r ==> #[trigger] spans@[i].spec_start() <= t,
        forall|i: int| r <= i < spans@.len() ==> #[trigger] spans@[i].spec_start() > t,
{
    let mut lo: usize = 0;
    let mut hi: usize = spans.len();
    while lo < hi
        invariant
            0 <= lo <= hi <= spans@.len(),
            normalized(spans@),
            forall|i: int| 0 <= i < lo ==> #[trigger] spans@[i].spec_start() <= t,
            forall|i: int| hi <= i < spans@.len() ==> #[trigger] spans@[i].spec_start() > t,
        decreases hi - lo,
    {
        let mid = lo + (hi - lo) / 2;
        if spans[mid].start() <= t {
            assert forall|i: int| 0 <= i < mid + 1 implies #[trigger] spans@[i].spec_start()
                <= t by {
                if i < mid {
                    assert(spans@[i].spec_end() < spans@[mid as int].spec_start());
                    assert(spans@[i].valid());
                }
            }
            lo = mid + 1;
        } else {
            assert forall|i: int| mid <= i < spans@.len() implies #[trigger] spans@[i].spec_start()
                > t by {
                if i > mid {
                    assert(spans@[mid as int].spec_end() < spans@[i].spec_start());
                    assert(spans@[mid as int].valid());
                }
            }
            hi = mid;
        }
    }
    lo
}

/// Without its first span, a normalized sequence covers exactly the covered
/// instants from the first span's end on.
proof fn lemma_tail_cover(a: Seq<TimeIntervalEvent<()>>, t: int)
    requires
        normalized(a),
        a.len() > 0,
    ensures
        spans_cover(a.drop_first(), t) <==> (spans_cover(a, t) && t >= a[0].spec_end()),
{
    let d = a.drop_first();
    if spans_cover(d, t) {
        let j = choose|j: int| 0 <= j < d.len() && #[trigger] d[j].covers(t);
        assert(a[j + 1].covers(t));
        assert(a[0].spec_end() < a[j + 1].spec_start());
    }
    if spans_cover(a, t) && t >= a[0].spec_end() {
        let i = choose|i: int| 0 <= i < a.len() && #[trigger] a[i].covers(t);
        assert(i != 0);
        assert(d[i - 1].covers(t));
    }
}

/// A normalized sequence is determined by the instants it covers.
proof fn lemma_coverage_determines(a: Seq<TimeIntervalEvent<()>>, b: Seq<TimeIntervalEvent<()>>)
    requires
        normalized(a),
        normalized(b),
        forall|t: int| spans_cover(a, t) == spans_cover(b, t),
    ensures
        a == b,
    decreases a.len(),
{
    if a.len() == 0 {
        if b.len() > 0 {
            assert(b[0].valid());
            assert(b[0].covers(b[0].spec_start()));
            assert(spans_cover(b, b[0].spec_start()));
        }
        assert(a =~= b);
    } else if b.len() == 0 {
        assert(a[0].valid());
        assert(a[0].covers(a[0].spec_start()));
        assert(spans_cover(a, a[0].spec_start()));
    } else {
        let a0 = a[0];
        let b0 = b[0];
        assert(a0.valid() && b0.valid());
        if a0.spec_start() < b0.spec_start() {
            let t = a0.spec_start();
            assert(a0.covers(t));
            assert(spans_cover(a, t));
            let j = choose|j: int| 0 <= j < b.len() && #[trigger] b[j].covers(t);
            if j > 0 {
                assert(b[0].spec_end() < b[j].spec_start());
            }
        }
        if b0.spec_start() < a0.spec_start() {
            let t = b0.spec_start();
            assert(b0.covers(t));
            assert(spans_cover(b, t));
            let j = choose|j: int| 0 <= j < a.len() && #[trigger] a[j].covers(t);
            if j > 0 {
                assert(a[0].spec_end() < a[j].spec_start());
            }
        }
        if a0.spec_end() < b0.spec_end() {
            let t = a0.spec_end();
            assert(b0.covers(t));
            assert(spans_cover(b, t));
            let j = choose|j: int| 0 <= j < a.len() && #[trigger] a[j].covers(t);
            if j > 0 {
                assert(a[0].spec_end() < a[j].spec_start());
            }
        }
        if b0.spec_end() < a0.spec_end() {
            let t = b0.spec_end();
            assert(a0.covers(t));
            assert(spans_cover(a, t));
            let j = choose|j: int| 0 <= j < b.len() && #[trigger] b[j].covers(t);
            if j > 0 {
                assert(b[0].spec_end() < b[j].spec_start());
            }
        }
        TimeIntervalEvent::<()>::lemma_same_bounds_same_span(a0, b0);
        let da = a.drop_first();
        let db = b.drop_first();
        assert forall|t: int| spans_cover(da, t) == spans_cover(db, t) by {
            lemma_tail_cover(a, t);
            lemma_tail_cover(b, t);
        }
        assert(normalized(da)) by {
            assert forall|i: int, j: int| 0 <= i < j < da.len() implies #[trigger] da[i].spec_end()
                < #[trigger] da[j].spec_start() by {
                assert(a[i + 1].spec_end() < a[j + 1].spec_start());
            }
        }
        assert(normalized(db)) by {
            assert forall|i: int, j: int| 0 <= i < j < db.len() implies #[trigger] db[i].spec_end()
                < #[trigger] db[j].spec_start() by {
                assert(b[i + 1].spec_end() < b[j + 1].spec_start());
            }
        }
        lemma_coverage_determines(da, db);
        assert(a =~= seq![a0] + da);
        assert(b =~= seq![b0] + db);
    }
}

/// Adding the span at `i` to a prefix adds what it covers.
proof fn lemma_cover_take_step(s: Seq<TimeIntervalEvent<()>>, i: int, t: int)
    requires
        0 <= i < s.len(),
    ensures
        spans_cover(s.take(i + 1), t) == (spans_cover(s.take(i), t) || s[i].covers(t)),
{
    let a = s.take(i);
    let b = s.take(i + 1);
    if spans_cover(b, t) {
        let k = choose|k: int| 0 <= k < b.len() && #[trigger] b[k].covers(t);
        if k < i {
            assert(a[k].covers(t));
        }
    }
    if spans_cover(a, t) {
        let k = choose|k: int| 0 <= k < a.len() && #[trigger] a[k].covers(t);
        assert(b[k].covers(t));
    }
    if s[i].covers(t) {
        assert(b[i].covers(t));
    }
}

/// A whole sequence is its longest prefix.
proof fn lemma_cover_take_all(s: Seq<TimeIntervalEvent<()>>, t: int)
    ensures
        spans_cover(s.take(s.len() as int), t) == spans_cover(s, t),
{
    assert(s.take(s.len() as int) =~= s);
}

/// Instants covered by valid spans are timestamps short of `i64::MAX`.
proof fn lemma_covered_in_range(s: Seq<TimeIntervalEvent<()>>, t: int)
    requires
        normalized(s),
        spans_cover(s, t),
    ensures
        i64::MIN <= t < i64::MAX,
{
    let k = choose|k: int| 0 <= k < s.len() && #[trigger] s[k].covers(t);
    assert(s[k].valid());
}

/// The instants covered by both normalized sequences, as a normalized
/// sequence; one pass over the two.
fn overlaps(a: &Vec<TimeIntervalEvent<()>>, b: &Vec<TimeIntervalEvent<()>>) -> (r: Vec<
    TimeIntervalEvent<()>,
>)
    requires
        normalized(a@),
        normalized(b@),
    ensures
        normalized(r@),
        forall|t: int| #![trigger spans_cover(r@, t)] spans_cover(r@, t) == (spans_cover(a@, t) && spans_cover(b@, t)),
{
    let mut out: Vec<TimeIntervalEvent<()>> = Vec::new();
    let mut i: usize = 0;
    let mut j: usize = 0;
    while i < a.len() && j < b.len()
        invariant
            0 <= i <= a@.len(),
            0 <= j <= b@.len(),
            normalized(a@),
            normalized(b@),
            normalized(out@),
            forall|t: int| #![trigger spans_cover(out@, t)]
                spans_cover(out@, t) == ((spans_cover(a@.take(i as int), t) || spans_cover(
                    b@.take(j as int),
                    t,
                )) && spans_cover(a@, t) && spans_cover(b@, t)),
            out@.len() > 0 && i < a@.len() && j < b@.len() ==> out@.last().spec_end() < max_int(
                a@[i as int].spec_start(),
                b@[j as int].spec_start(),
            ),
        decreases a@.len() - i + b@.len() - j,
    {
        let (a_start, a_end) = a[i].bounds();
        let (b_start, b_end) = b[j].bounds();
        let start = if a_start >= b_start {
            a_start
        } else {
            b_start
        };
        let end = if a_end <= b_end {
            a_end
        } else {
            b_end
        };
        let ghost prev = out@;
        let ghost ai = a@[i as int];
        let ghost bj = b@[j as int];
        if start < end {
            out.push(TimeIntervalEvent::raw(start, end));
            proof {
                let k = prev.len() as int;
                assert forall|x: int, y: int| 0 <= x < y < out@.len() implies #[trigger] out@[x].spec_end()
                    < #[trigger] out@[y].spec_start() by {
                    if y < k {
                        assert(prev[x].spec_end() < prev[y].spec_start());
                    } else if x < k - 1 {
                        assert(prev[x].spec_end() < prev[k - 1].spec_start());
                        assert(prev[k - 1].valid());
                    }
                }
            }
        }
        let ghost piece_covers = |t: int| start < end && start <= t < end;
        proof {
            assert forall|t: int| #![trigger spans_cover(out@, t)] spans_cover(out@, t) == (spans_cover(prev, t)
                || piece_covers(t)) by {
                if spans_cover(out@, t) {
                    let k = choose|k: int| 0 <= k < out@.len() && #[trigger] out@[k].covers(t);
                    if k < prev.len() {
                        assert(prev[k].covers(t));
                    }
                }
                if spans_cover(prev, t) {
                    let k = choose|k: int| 0 <= k < prev.len() && #[trigger] prev[k].covers(t);
                    assert(out@[k].covers(t));
                }
                if piece_covers(t) {
                    assert(out@[prev.len() as int].covers(t));
                }
            }
        }
        if a_end <= b_end {
            proof {
                assert forall|t: int| #![trigger spans_cover(out@, t)] spans_cover(out@, t) == ((spans_cover(
                    a@.take(i + 1),
                    t,
                ) || spans_cover(b@.take(j as int), t)) && spans_cover(a@, t) && spans_cover(
                    b@,
                    t,
                )) by {
                    lemma_cover_take_step(a@, i as int, t);
                    if ai.covers(t) && spans_cover(b@, t) && !spans_cover(b@.take(j as int), t) {
                        let k = choose|k: int| 0 <= k < b@.len() && #[trigger] b@[k].covers(t);
                        if k < j {
                            assert(b@.take(j as int)[k].covers(t));
                        } else if k > j {
                            assert(bj.spec_end() < b@[k].spec_start());
                        }
                        assert(piece_covers(t));
                    }
                    if piece_covers(t) {
                        assert(ai.covers(t) && bj.covers(t));
                        assert(a@[i as int].covers(t));
                        assert(b@[j as int].covers(t));
                    }
                }
                if i + 1 < a@.len() && j < b@.len() && out@.len() > 0 {
                    assert(ai.spec_end() < a@[i + 1].spec_start());
                    assert(ai.spec_start() < a@[i + 1].spec_start()) by {
                        assert(ai.valid());
                    }
                }
            }
            i = i + 1;
        } else {
            proof {
                assert forall|t: int| #![trigger spans_cover(out@, t)] spans_cover(out@, t) == ((spans_cover(
                    a@.take(i as int),
                    t,
                ) || spans_cover(b@.take(j + 1), t)) && spans_cover(a@, t) && spans_cover(
                    b@,
                    t,
                )) by {
                    lemma_cover_take_step(b@, j as int, t);
                    if bj.covers(t) && spans_cover(a@, t) && !spans_cover(a@.take(i as int), t) {
                        let k = choose|k: int| 0 <= k < a@.len() && #[trigger] a@[k].covers(t);
                        if k < i {
                            assert(a@.take(i as int)[k].covers(t));
                        } else if k > i {
                            assert(ai.spec_end() < a@[k].spec_start());
                        }
                        assert(piece_covers(t));
                    }
                    if piece_covers(t) {
                        assert(a@[i as int].covers(t));
                        assert(b@[j as int].covers(t));
                    }
                }
                if i < a@.len() && j + 1 < b@.len() && out@.len() > 0 {
                    assert(bj.spec_end() < b@[j + 1].spec_start());
                    assert(bj.spec_start() < b@[j + 1].spec_start()) by {
                        assert(bj.valid());
                    }
                }
            }
            j = j + 1;
        }
    }
    proof {
        assert forall|t: int| #![trigger spans_cover(out@, t)] spans_cover(out@, t) == (spans_cover(a@, t)
            && spans_cover(b@, t)) by {
            lemma_cover_take_all(a@, t);
            lemma_cover_take_all(b@, t);
        }
    }
    out
}

/// The timestamps short of `i64::MAX` that a normalized sequence leaves
/// uncovered, as a normalized sequence; one pass.
fn gaps(b: &Vec<TimeIntervalEvent<()>>) -> (r: Vec<TimeIntervalEvent<()>>)
    requires
        normalized(b@),
    ensures
        normalized(r@),
        forall|t: int| #![trigger spans_cover(r@, t)]
            spans_cover(r@, t) == (i64::MIN <= t < i64::MAX && !spans_cover(b@, t)),
{
    let mut out: Vec<TimeIntervalEvent<()>> = Vec::new();
    let mut prev: i64 = i64::MIN;
    let mut k: usize = 0;
    while k < b.len()
        invariant
            0 <= k <= b@.len(),
            normalized(b@),
            normalized(out@),
            k == 0 ==> prev == i64::MIN && out@.len() == 0,
            k > 0 ==> prev == b@[k - 1].spec_end(),
            out@.len() > 0 ==> out@.last().spec_end() < prev,
            forall|t: int| #![trigger spans_cover(out@, t)]
                spans_cover(out@, t) == (i64::MIN <= t < prev && !spans_cover(b@.take(k as int), t)),
        decreases b@.len() - k,
    {
        let (s, e) = b[k].bounds();
        let ghost prev_out = out@;
        let ghost bk = b@[k as int];
        if k > 0 {
            assert(b@[k - 1].spec_end() < bk.spec_start());
        }
        if prev < s {
            out.push(TimeIntervalEvent::raw(prev, s));
            proof {
                let n = prev_out.len() as int;
                assert forall|x: int, y: int| 0 <= x < y < out@.len() implies #[trigger] out@[x].spec_end()
                    < #[trigger] out@[y].spec_start() by {
                    if y < n {
                        assert(prev_out[x].spec_end() < prev_out[y].spec_start());
                    } else if x < n - 1 {
                        assert(prev_out[x].spec_end() < prev_out[n - 1].spec_start());
                        assert(prev_out[n - 1].valid());
                    }
                }
            }
        }
        proof {
            assert forall|t: int| #![trigger spans_cover(out@, t)] spans_cover(out@, t) == (i64::MIN <= t
                < e && !spans_cover(b@.take(k + 1), t)) by {
                lemma_cover_take_step(b@, k as int, t);
                if spans_cover(out@, t) {
                    let m = choose|m: int| 0 <= m < out@.len() && #[trigger] out@[m].covers(t);
                    if m < prev_out.len() {
                        assert(prev_out[m].covers(t));
                        assert(spans_cover(prev_out, t));
                    }
                }
                if i64::MIN <= t < e && !spans_cover(b@.take(k + 1), t) {
                    if t < prev {
                        assert(spans_cover(prev_out, t));
                        let m = choose|m: int| 0 <= m < prev_out.len() && #[trigger] prev_out[m].covers(t);
                        assert(out@[m].covers(t));
                    } else {
                        assert(!bk.covers(t));
                        assert(out@[prev_out.len() as int].covers(t));
                    }
                }
                if spans_cover(b@.take(k as int), t) {
                    let m = choose|m: int| 0 <= m < k && #[trigger] b@.take(k as int)[m].covers(t);
                    if m < k - 1 {
                        assert(b@[m].spec_end() < b@[k - 1].spec_start());
                        assert(b@[k - 1].valid());
                    }
                    assert(t < prev);
                }
            }
        }
        prev = e;
        k = k + 1;
    }
    let ghost before_tail = out@;
    if prev < i64::MAX {
        out.push(TimeIntervalEvent::raw(prev, i64::MAX));
        proof {
            let n = before_tail.len() as int;
            assert forall|x: int, y: int| 0 <= x < y < out@.len() implies #[trigger] out@[x].spec_end()
                < #[trigger] out@[y].spec_start() by {
                if y < n {
                    assert(before_tail[x].spec_end() < before_tail[y].spec_start());
                } else if x < n - 1 {
                    assert(before_tail[x].spec_end() < before_tail[n - 1].spec_start());
                    assert(before_tail[n - 1].valid());
                }
            }
        }
    }
    proof {
        assert forall|t: int| #![trigger spans_cover(out@, t)] spans_cover(out@, t) == (i64::MIN <= t
            < i64::MAX && !spans_cover(b@, t)) by {
            lemma_cover_take_all(b@, t);
            if spans_cover(out@, t) {
                let m = choose|m: int| 0 <= m < out@.len() && #[trigger] out@[m].covers(t);
                if m < before_tail.len() {
                    assert(before_tail[m].covers(t));
                    assert(spans_cover(before_tail, t));
                }
            }
            if t >= prev && spans_cover(b@, t) {
                let m = choose|m: int| 0 <= m < b@.len() && #[trigger] b@[m].covers(t);
                if m < b@.len() - 1 {
                    assert(b@[m].spec_end() < b@[b@.len() - 1].spec_start());
                    assert(b@[b@.len() - 1].valid());
                }
            }
            if i64::MIN <= t < i64::MAX && !spans_cover(b@, t) {
                if t < prev {
                    assert(spans_cover(before_tail, t));
                    let m = choose|m: int| 0 <= m < before_tail.len() && #[trigger] before_tail[m].covers(t);
                    assert(out@[m].covers(t));
                } else {
                    assert(out@[before_tail.len() as int].covers(t));
                }
            }
        }
    }
    out
}

/// Merge spans sorted by start into a normalized sequence covering the same
/// instants, in one pass: each span either widens the span being built, when
/// it overlaps or touches it, or starts the next one.
fn sweep(spans: &Vec<TimeIntervalEvent<()>>) -> (r: Vec<TimeIntervalEvent<()>>)
    requires
        time_sorted(spans@),
    ensures
        normalized(r@),
        forall|t: int| #![trigger spans_cover(r@, t)] spans_cover(r@, t) == spans_cover(spans@, t),
{
    let ghost sorted = spans@;
    let mut out: Vec<TimeIntervalEvent<()>> = Vec::with_capacity(spans.len());
    let n = spans.len();
    let mut i: usize = 0;
    while i < n
        invariant
            n == spans@.len(),
            spans@ == sorted,
            time_sorted(sorted),
            0 <= i <= n,
            normalized(out@),
            forall|t: int| spans_cover(out@, t) == spans_cover(sorted.take(i as int), t),
            out@.len() > 0 ==> forall|j: int|
                i <= j < n ==> out@.last().spec_start() <= #[trigger] sorted[j].spec_start(),
        decreases n - i,
    {
        let span = spans[i];
        let (s_start, s_end) = span.bounds();
        let ghost prev = out@;
        assert(sorted.take(i + 1) =~= sorted.take(i as int).push(span));
        if out.len() > 0 && s_start <= out[out.len() - 1].end() {
            let open = out.pop().unwrap();
            let (o_start, o_end) = open.bounds();
            let end = if o_end >= s_end {
                o_end
            } else {
                s_end
            };
            out.push(TimeIntervalEvent::raw(o_start, end));
            proof {
                let k = prev.len() - 1;
                assert(prev[k] == open);
                assert(o_start <= s_start);
                assert forall|t: int| spans_cover(out@, t) == spans_cover(
                    sorted.take(i + 1),
                    t,
                ) by {
                    let merged = out@[k];
                    assert(merged.covers(t) == (open.covers(t) || span.covers(t)));
                    if spans_cover(out@, t) {
                        let j = choose|j: int| 0 <= j < out@.len() && #[trigger] out@[j].covers(t);
                        if j < k {
                            assert(prev[j].covers(t));
                            assert(spans_cover(prev, t));
                        } else if open.covers(t) {
                            assert(prev[k].covers(t));
                            assert(spans_cover(prev, t));
                        }
                    }
                    if spans_cover(prev, t) {
                        let j = choose|j: int| 0 <= j < prev.len() && #[trigger] prev[j].covers(t);
                        if j < k {
                            assert(out@[j].covers(t));
                        } else {
                            assert(out@[k].covers(t));
                        }
                    }
                    if span.covers(t) {
                        assert(out@[k].covers(t));
                    }
                    assert(spans_cover(sorted.take(i + 1), t) == (spans_cover(
                        sorted.take(i as int),
                        t,
                    ) || span.covers(t))) by {
                        let tk = sorted.take(i as int);
                        let tk1 = sorted.take(i + 1);
                        if spans_cover(tk1, t) {
                            let j = choose|j: int| 0 <= j < tk1.len() && #[trigger] tk1[j].covers(t);
                            if j < i {
                                assert(tk[j].covers(t));
                            }
                        }
                        if spans_cover(tk, t) {
                            let j = choose|j: int| 0 <= j < tk.len() && #[trigger] tk[j].covers(t);
                            assert(tk1[j].covers(t));
                        }
                        if span.covers(t) {
                            assert(tk1[i as int].covers(t));
                        }
                    }
                }
                assert forall|a: int, b: int| 0 <= a < b < out@.len() implies #[trigger] out@[a].spec_end()
                    < #[trigger] out@[b].spec_start() by {
                    assert(prev[a].spec_end() < prev[k].spec_start());
                }
                assert forall|j: int| i + 1 <= j < n implies out@.last().spec_start()
                    <= #[trigger] sorted[j].spec_start() by {
                    assert(prev.last().spec_start() <= sorted[j].spec_start());
                }
            }
        } else {
            out.push(span);
            proof {
                let k = prev.len() as int;
                if k > 0 {
                    assert(prev[k - 1].spec_end() < s_start);
                    assert(prev[k - 1].valid());
                }
                assert forall|a: int, b: int| 0 <= a < b < out@.len() implies #[trigger] out@[a].spec_end()
                    < #[trigger] out@[b].spec_start() by {
                    if b == k {
                        if a < k - 1 {
                            assert(prev[a].spec_end() < prev[k - 1].spec_start());
                        }
                    } else {
                        assert(prev[a].spec_end() < prev[b].spec_start());
                    }
                }
                assert forall|t: int| spans_cover(out@, t) == spans_cover(
                    sorted.take(i + 1),
                    t,
                ) by {
                    let tk = sorted.take(i as int);
                    let tk1 = sorted.take(i + 1);
                    if spans_cover(out@, t) {
                        let j = choose|j: int| 0 <= j < out@.len() && #[trigger] out@[j].covers(t);
                        if j < k {
                            assert(prev[j].covers(t));
                            assert(spans_cover(prev, t));
                            assert(spans_cover(tk, t));
                            let m = choose|m: int| 0 <= m < tk.len() && #[trigger] tk[m].covers(t);
                            assert(tk1[m].covers(t));
                        } else {
                            assert(tk1[i as int].covers(t));
                        }
                    }
                    if spans_cover(tk1, t) {
                        let j = choose|j: int| 0 <= j < tk1.len() && #[trigger] tk1[j].covers(t);
                        if j < i {
                            assert(tk[j].covers(t));
                            assert(spans_cover(prev, t));
                            let m = choose|m: int| 0 <= m < prev.len() && #[trigger] prev[m].covers(t);
                            assert(out@[m].covers(t));
                        } else {
                            assert(out@[k].covers(t));
                        }
                    }
                }
                assert forall|j: int| i + 1 <= j < n implies out@.last().spec_start()
                    <= #[trigger] sorted[j].spec_start() by {
                    assert(sorted[i as int].time_key() <= sorted[j].time_key());
                }
            }
        }
        i = i + 1;
    }
    assert(sorted.take(n as int) =~= sorted);
    out
}

impl TimeIntervalSequence {
    /// The sequence is normalized and its running total is up to date. Every
    /// value of the type satisfies it.
    #[verifier::type_invariant]
    pub open spec fn wf(&self) -> bool {
        normalized(self@) && self.tallied()
    }

    /// The running total is the summed length of the spans.
    pub closed spec fn tallied(&self) -> bool {
        self.total == total_length(self.spans@)
    }

    /// Whether the state was active at the instant `t`.
    pub open spec fn covers(&self, t: int) -> bool {
        spans_cover(self@, t)
    }

    /// Create an empty sequence, covering no instants at all.
    pub fn new() -> (r: Self)
        ensures
            r@ == Seq::<TimeIntervalEvent<()>>::empty(),
    {
        TimeIntervalSequence { spans: Vec::new(), total: 0 }
    }

    /// Build a sequence from spans in any order, overlapping freely: they are
    /// sorted once by start, then merged in a single sweep.
    pub fn from_spans(spans: Vec<TimeIntervalEvent<()>>) -> (r: Self)
        ensures
            forall|t: int| #![trigger r.covers(t)] r.covers(t) == spans_cover(spans@, t),
    {
        let ghost input = spans@;
        let mut spans = spans;
        sort_by_time(&mut spans);
        let ghost sorted = spans@;
        assert forall|t: int| spans_cover(sorted, t) == spans_cover(input, t) by {
            if spans_cover(sorted, t) {
                let i = choose|i: int| 0 <= i < sorted.len() && #[trigger] sorted[i].covers(t);
                assert(sorted.contains(sorted[i]));
                lemma_same_runs_same_members(sorted, input, sorted[i]);
                let j = choose|j: int| 0 <= j < input.len() && input[j] == sorted[i];
                assert(input[j].covers(t));
            }
            if spans_cover(input, t) {
                let i = choose|i: int| 0 <= i < input.len() && #[trigger] input[i].covers(t);
                assert(input.contains(input[i]));
                lemma_same_runs_same_members(sorted, input, input[i]);
                let j = choose|j: int| 0 <= j < sorted.len() && sorted[j] == input[i];
                assert(sorted[j].covers(t));
            }
        }
        let out = sweep(&spans);
        let total = measure(&out);
        TimeIntervalSequence { spans: out, total }
    }

    /// Consume the sequence and return its normalized spans, earliest first.
    pub fn into_spans(self) -> (r: Vec<TimeIntervalEvent<()>>)
        ensures
            r@ == self@,
    {
        self.spans
    }

    /// How many spans remain after merging.
    pub fn len(&self) -> (r: usize)
        ensures
            r == self@.len(),
    {
        self.spans.len()
    }

    /// Whether the sequence covers no instants at all.
    pub fn is_empty(&self) -> (r: bool)
        ensures
            r == (self@.len() == 0),
            r == (forall|t: int| !self.covers(t)),
    {
        proof {
            use_type_invariant(self);
        }
        if self.spans.len() > 0 {
            let first = self.spans[0];
            let s = first.start();
            assert(self@[0].covers(s as int));
            assert(self.covers(s as int));
        }
        proof {
            if self@.len() == 0 {
                assert forall|t: int| !self.covers(t) by {}
            }
        }
        self.spans.is_empty()
    }

    /// Drop every span, leaving the sequence covering nothing.
    pub fn clear(&mut self)
        ensures
            final(self)@ == Seq::<TimeIntervalEvent<()>>::empty(),
    {
        *self = Self::new();
    }

    /// The whole sequence as a slice, earliest span first.
    pub fn as_slice(&self) -> (r: &[TimeIntervalEvent<()>])
        ensures
            r@ == self@,
    {
        self.spans.as_slice()
    }

    /// Mark `span` as covered, merging it with every span it overlaps or
    /// touches. Afterwards exactly the instants covered before, plus those of
    /// `span`, are covered.
    pub fn insert(&mut self, span: TimeIntervalEvent<()>)
        ensures
            forall|t: int|
                #![trigger final(self).covers(t)]
                final(self).covers(t) == (old(self).covers(t) || span.covers(t)),
    {
        let mut this = Self::new();
        std::mem::swap(&mut this, self);
        proof {
            use_type_invariant(&this);
        }
        let TimeIntervalSequence { mut spans, mut total } = this;
        let ghost s = spans@;
        let (x_start, x_end) = span.bounds();
        let from = first_ending_from(&spans, x_start);
        let to = first_starting_after(&spans, x_end);
        if to < from {
            assert(s[to as int].spec_end() < x_start);
            assert(s[to as int].spec_start() > x_end);
            assert(s[to as int].valid());
        }
        if from == to {
            spans.insert(from, span);
            proof {
                let f = spans@;
                assert forall|i: int| 0 <= i < f.len() implies #[trigger] f[i].valid() by {
                    if i > from {
                        assert(f[i] == s[i - 1]);
                    }
                }
                assert forall|a: int, b: int| 0 <= a < b < f.len() implies #[trigger] f[a].spec_end()
                    < #[trigger] f[b].spec_start() by {
                    if a < from && b < from {
                        assert(s[a].spec_end() < s[b].spec_start());
                    } else if a < from && b > from {
                        assert(f[b] == s[b - 1]);
                        assert(s[a].spec_end() < s[b - 1].spec_start());
                    } else if a > from {
                        assert(f[a] == s[a - 1]);
                        assert(f[b] == s[b - 1]);
                        assert(s[a - 1].spec_end() < s[b - 1].spec_start());
                    } else if a == from {
                        assert(f[b] == s[b - 1]);
                    }
                }
                assert forall|t: int| spans_cover(f, t) == (spans_cover(s, t) || span.covers(t)) by {
                    if spans_cover(f, t) {
                        let i = choose|i: int| 0 <= i < f.len() && #[trigger] f[i].covers(t);
                        if i < from {
                            assert(s[i].covers(t));
                        } else if i > from {
                            assert(s[i - 1].covers(t));
                        }
                    }
                    if spans_cover(s, t) {
                        let i = choose|i: int| 0 <= i < s.len() && #[trigger] s[i].covers(t);
                        if i < from {
                            assert(f[i].covers(t));
                        } else {
                            assert(f[i + 1].covers(t));
                        }
                    }
                    if span.covers(t) {
                        assert(f[from as int].covers(t));
                    }
                }
                let k = from as int;
                assert(total_length(s.subrange(k, k)) == 0);
                lemma_total_length_replace(s, k, k, span);
                assert(f =~= s.take(k).push(span) + s.skip(k));
                lemma_total_length_bounded(f);
            }
            total = total + span_length(&span);
            *self = TimeIntervalSequence { spans, total };
            return ;
        }
        let first = spans[from];
        let last = spans[to - 1];
        let (f_start, f_end) = first.bounds();
        let (l_start, l_end) = last.bounds();
        let start = if f_start <= x_start {
            f_start
        } else {
            x_start
        };
        let end = if l_end >= x_end {
            l_end
        } else {
            x_end
        };
        let merged = TimeIntervalEvent::raw(start, end);
        let merged_length = span_length(&merged);
        let mut absorbed: u64 = 0;
        let mut j: usize = from;
        while j < to
            invariant
                from <= j <= to <= s.len(),
                spans@ == s,
                normalized(s),
                absorbed == total_length(s.subrange(from as int, j as int)),
            decreases to - j,
        {
            proof {
                assert(s.subrange(from as int, j + 1).drop_last() =~= s.subrange(
                    from as int,
                    j as int,
                ));
                lemma_normalized_subrange(s, from as int, j + 1);
                lemma_total_length_bounded(s.subrange(from as int, j + 1));
            }
            absorbed = absorbed + span_length(&spans[j]);
            j = j + 1;
        }
        let mut tail = spans.split_off(to);
        spans.truncate(from);
        spans.push(merged);
        spans.append(&mut tail);
        proof {
            let f = spans@;
            let n = s.len() as int;
            let k = from as int;
            let shift = to - from - 1;
            assert(f.len() == k + 1 + (n - to));
            assert forall|i: int| 0 <= i < k implies f[i] == s[i] by {}
            assert(f[k] == merged);
            assert forall|i: int| k < i < f.len() implies #[trigger] f[i] == s[i + shift] by {}
            // the absorbed spans lie within the merged one
            assert forall|i: int| from <= i < to implies start <= #[trigger] s[i].spec_start()
                && s[i].spec_end() <= end by {
                if i > from {
                    assert(s[k].spec_end() < s[i].spec_start());
                    assert(s[k].valid());
                }
                if i < to - 1 {
                    assert(s[i].spec_end() < s[to - 1].spec_start());
                    assert(s[to - 1].valid());
                }
            }
            assert forall|i: int| 0 <= i < f.len() implies #[trigger] f[i].valid() by {
                if i > k {
                    assert(f[i] == s[i + shift]);
                }
            }
            assert forall|a: int, b: int| 0 <= a < b < f.len() implies #[trigger] f[a].spec_end()
                < #[trigger] f[b].spec_start() by {
                if a < k && b < k {
                    assert(s[a].spec_end() < s[b].spec_start());
                } else if a < k && b == k {
                    assert(s[a].spec_end() < s[k].spec_start());
                } else if a < k {
                    assert(f[b] == s[b + shift]);
                    assert(s[a].spec_end() < s[b + shift].spec_start());
                } else if a == k {
                    assert(f[b] == s[b + shift]);
                    assert(s[to - 1].spec_end() < s[b + shift].spec_start() || b + shift == to - 1);
                } else {
                    assert(f[a] == s[a + shift]);
                    assert(f[b] == s[b + shift]);
                    assert(s[a + shift].spec_end() < s[b + shift].spec_start());
                }
            }
            assert forall|t: int| spans_cover(f, t) == (spans_cover(s, t) || span.covers(t)) by {
                if spans_cover(f, t) {
                    let i = choose|i: int| 0 <= i < f.len() && #[trigger] f[i].covers(t);
                    if i < k {
                        assert(s[i].covers(t));
                    } else if i > k {
                        assert(s[i + shift].covers(t));
                    } else if !span.covers(t) {
                        if t < x_start {
                            assert(s[k].covers(t));
                        } else {
                            assert(s[to - 1].covers(t));
                        }
                    }
                }
                if spans_cover(s, t) {
                    let i = choose|i: int| 0 <= i < s.len() && #[trigger] s[i].covers(t);
                    if i < k {
                        assert(f[i].covers(t));
                    } else if i >= to {
                        assert(f[i - shift].covers(t));
                    } else {
                        assert(f[k].covers(t));
                    }
                }
                if span.covers(t) {
                    assert(f[k].covers(t));
                }
            }
            lemma_total_length_split(s, k, to as int);
            lemma_total_length_replace(s, k, to as int, merged);
            assert(f =~= s.take(k).push(merged) + s.skip(to as int));
            lemma_total_length_bounded(f);
        }
        total = total - absorbed + merged_length;
        *self = TimeIntervalSequence { spans, total };
    }

    /// Remove the span at position `index` and return it. The rest of the
    /// sequence is untouched, so it stays normalized.
    pub fn remove(&mut self, index: usize) -> (r: TimeIntervalEvent<()>)
        requires
            index < old(self)@.len(),
        ensures
            r == old(self)@[index as int],
            final(self)@ == old(self)@.remove(index as int),
    {
        let mut this = Self::new();
        std::mem::swap(&mut this, self);
        proof {
            use_type_invariant(&this);
        }
        let TimeIntervalSequence { mut spans, mut total } = this;
        let ghost s = spans@;
        let r = spans.remove(index);
        proof {
            let f = spans@;
            assert forall|i: int| 0 <= i < f.len() implies #[trigger] f[i].valid() by {
                if i >= index {
                    assert(f[i] == s[i + 1]);
                }
            }
            assert forall|a: int, b: int| 0 <= a < b < f.len() implies #[trigger] f[a].spec_end()
                < #[trigger] f[b].spec_start() by {
                let a0 = if a < index { a } else { a + 1 };
                let b0 = if b < index { b } else { b + 1 };
                assert(f[a] == s[a0]);
                assert(f[b] == s[b0]);
                assert(s[a0].spec_end() < s[b0].spec_start());
            }
            let i = index as int;
            lemma_total_length_split(s, i, i + 1);
            assert(s.subrange(i, i + 1).drop_last().len() == 0);
            assert(total_length(s.subrange(i, i + 1).drop_last()) == 0);
            lemma_total_length_concat(s.take(i), s.skip(i + 1));
            assert(f =~= s.take(i) + s.skip(i + 1));
        }
        total = total - span_length(&r);
        *self = TimeIntervalSequence { spans, total };
        r
    }

    /// The span at position `index`, counting from the earliest.
    pub fn nth(&self, index: usize) -> (r: Option<&TimeIntervalEvent<()>>)
        ensures
            r == (if index < self@.len() {
                Some(&self@[index as int])
            } else {
                None
            }),
    {
        if index < self.spans.len() {
            Some(&self.spans[index])
        } else {
            None
        }
    }

    /// Walk every span, earliest first.
    pub fn iter(&self) -> (r: std::slice::Iter<'_, TimeIntervalEvent<()>>)
        ensures
            r.remaining() == self@.as_ref(),
    {
        self.spans.as_slice().iter()
    }

    /// The earliest span, or `None` when the sequence covers nothing.
    pub fn first(&self) -> (r: Option<&TimeIntervalEvent<()>>)
        ensures
            r == (if self@.len() > 0 {
                Some(&self@[0])
            } else {
                None
            }),
    {
        self.spans.as_slice().first()
    }

    /// The latest span, or `None` when the sequence covers nothing.
    pub fn last(&self) -> (r: Option<&TimeIntervalEvent<()>>)
        ensures
            r == (if self@.len() > 0 {
                Some(&self@.last())
            } else {
                None
            }),
    {
        self.spans.as_slice().last()
    }

    /// The span covering `timestamp`, or `None` when the state was inactive
    /// then. At most one span can cover an instant.
    pub fn at(&self, timestamp: Timestamp) -> (r: Option<&TimeIntervalEvent<()>>)
        ensures
            r.is_some() == self.covers(timestamp as int),
            r matches Some(span) ==> self@.contains(*span) && span.covers(timestamp as int),
    {
        proof {
            use_type_invariant(self);
        }
        let c = first_starting_after(&self.spans, timestamp);
        if c == 0 {
            proof {
                if self.covers(timestamp as int) {
                    let i = choose|i: int| 0 <= i < self@.len() && #[trigger] self@[i].covers(timestamp as int);
                    assert(self@[i].spec_start() > timestamp);
                }
            }
            return None;
        }
        let candidate = &self.spans[c - 1];
        proof {
            assert forall|i: int| 0 <= i < self@.len() && i != c - 1 implies !#[trigger] self@[i].covers(
                timestamp as int,
            ) by {
                if i < c - 1 {
                    assert(self@[i].spec_end() < self@[c - 1].spec_start());
                }
            }
        }
        if candidate.end() > timestamp {
            assert(self@.contains(self@[c - 1]));
            assert(self@[c - 1].covers(timestamp as int));
            Some(candidate)
        } else {
            proof {
                if self.covers(timestamp as int) {
                    let i = choose|i: int| 0 <= i < self@.len() && #[trigger] self@[i].covers(timestamp as int);
                    assert(i == c - 1);
                }
            }
            None
        }
    }

    /// Whether the state was active at `timestamp`.
    pub fn contains(&self, timestamp: Timestamp) -> (r: bool)
        ensures
            r == self.covers(timestamp as int),
    {
        self.at(timestamp).is_some()
    }

    /// Mark every span of `spans` as covered, renormalizing once.
    pub fn extend(&mut self, spans: Vec<TimeIntervalEvent<()>>)
        ensures
            forall|t: int|
                #![trigger final(self).covers(t)]
                final(self).covers(t) == (old(self).covers(t) || spans_cover(spans@, t)),
    {
        let mut this = Self::new();
        std::mem::swap(&mut this, self);
        let TimeIntervalSequence { spans: mut combined, total: _ } = this;
        let ghost s = combined@;
        let mut spans = spans;
        let ghost added = spans@;
        combined.append(&mut spans);
        let ghost c = combined@;
        assert forall|t: int| spans_cover(c, t) == (spans_cover(s, t) || spans_cover(added, t)) by {
            if spans_cover(c, t) {
                let i = choose|i: int| 0 <= i < c.len() && #[trigger] c[i].covers(t);
                if i < s.len() {
                    assert(s[i].covers(t));
                } else {
                    assert(added[i - s.len()].covers(t));
                }
            }
            if spans_cover(s, t) {
                let i = choose|i: int| 0 <= i < s.len() && #[trigger] s[i].covers(t);
                assert(c[i].covers(t));
            }
            if spans_cover(added, t) {
                let i = choose|i: int| 0 <= i < added.len() && #[trigger] added[i].covers(t);
                assert(c[i + s.len()].covers(t));
            }
        }
        *self = Self::from_spans(combined);
    }
}

impl TimeIntervalSequence {
    /// The instants covered by both timelines. Both operands are borrowed and
    /// left untouched; one pass over the two.
    pub fn intersection(&self, other: &Self) -> (r: Self)
        ensures
            forall|t: int| #![trigger r.covers(t)] r.covers(t) == (self.covers(t) && other.covers(t)),
    {
        proof {
            use_type_invariant(self);
            use_type_invariant(other);
        }
        let spans = overlaps(&self.spans, &other.spans);
        let total = measure(&spans);
        TimeIntervalSequence { spans, total }
    }

    /// The instants covered by this timeline but not the other.
    pub fn difference(&self, other: &Self) -> (r: Self)
        ensures
            forall|t: int| #![trigger r.covers(t)] r.covers(t) == (self.covers(t) && !other.covers(t)),
    {
        proof {
            use_type_invariant(self);
            use_type_invariant(other);
        }
        let outside = gaps(&other.spans);
        let spans = overlaps(&self.spans, &outside);
        proof {
            assert forall|t: int| #![trigger spans_cover(spans@, t)] spans_cover(spans@, t) == (self.covers(t)
                && !other.covers(t)) by {
                if self.covers(t) {
                    lemma_covered_in_range(self@, t);
                }
            }
        }
        let total = measure(&spans);
        TimeIntervalSequence { spans, total }
    }

    /// The instants covered by either timeline.
    pub fn union(&self, other: &Self) -> (r: Self)
        ensures
            forall|t: int| #![trigger r.covers(t)] r.covers(t) == (self.covers(t) || other.covers(t)),
    {
        proof {
            use_type_invariant(self);
            use_type_invariant(other);
        }
        // Covered by either is the complement of uncovered by both.
        let outside_self = gaps(&self.spans);
        let outside_other = gaps(&other.spans);
        let outside_both = overlaps(&outside_self, &outside_other);
        let spans = gaps(&outside_both);
        proof {
            assert forall|t: int| #![trigger spans_cover(spans@, t)] spans_cover(spans@, t) == (self.covers(t)
                || other.covers(t)) by {
                if self.covers(t) {
                    lemma_covered_in_range(self@, t);
                }
                if other.covers(t) {
                    lemma_covered_in_range(other@, t);
                }
            }
        }
        let total = measure(&spans);
        TimeIntervalSequence { spans, total }
    }

    /// The instants covered by exactly one of the two timelines.
    pub fn symmetric_difference(&self, other: &Self) -> (r: Self)
        ensures
            forall|t: int| #![trigger r.covers(t)] r.covers(t) == (self.covers(t) != other.covers(t)),
    {
        proof {
            use_type_invariant(self);
            use_type_invariant(other);
        }
        let only_self = self.difference(other);
        let only_other = other.difference(self);
        let r = only_self.union(&only_other);
        proof {
            assert forall|t: int| #![trigger r.covers(t)] r.covers(t) == (self.covers(t) != other.covers(t)) by {
                assert(only_self.covers(t) == (self.covers(t) && !other.covers(t)));
                assert(only_other.covers(t) == (other.covers(t) && !self.covers(t)));
            }
        }
        r
    }
}

/// Whether `x` is a timestamp.
pub open spec fn fits_timestamp(x: int) -> bool {
    i64::MIN <= x <= i64::MAX
}

/// Whether `span`, with its start moved by `alpha` and its end by `beta`,
/// covers the instant `t`. A span the shift leaves empty covers nothing.
pub open spec fn shifted_covers(span: TimeIntervalEvent<()>, alpha: int, beta: int, t: int) -> bool {
    span.spec_start() + alpha <= t && t < span.spec_end() + beta
}

/// Whether some span of `s`, shifted as in `shifted_covers`, covers `t`.
pub open spec fn shifted_cover(s: Seq<TimeIntervalEvent<()>>, alpha: int, beta: int, t: int) -> bool {
    exists|i: int| 0 <= i < s.len() && #[trigger] shifted_covers(s[i], alpha, beta, t)
}

/// The first bound, earliest span first and start before end, that moving
/// starts by `alpha` and ends by `beta` pushes outside the timestamp range,
/// with the shift it was asked to take.
pub open spec fn first_overflow(s: Seq<TimeIntervalEvent<()>>, alpha: int, beta: int) -> Option<
    (int, int),
>
    decreases s.len(),
{
    if s.len() == 0 {
        None
    } else if !fits_timestamp(s[0].spec_start() + alpha) {
        Some((s[0].spec_start(), alpha))
    } else if !fits_timestamp(s[0].spec_end() + beta) {
        Some((s[0].spec_end(), beta))
    } else {
        first_overflow(s.drop_first(), alpha, beta)
    }
}

/// When no bound of the first `i` spans overflows, the first overflow is
/// found among the rest.
proof fn lemma_first_overflow_skip(s: Seq<TimeIntervalEvent<()>>, alpha: int, beta: int, i: int)
    requires
        0 <= i <= s.len(),
        forall|k: int|
            0 <= k < i ==> fits_timestamp(#[trigger] s[k].spec_start() + alpha) && fits_timestamp(
                s[k].spec_end() + beta,
            ),
    ensures
        first_overflow(s, alpha, beta) == first_overflow(s.skip(i), alpha, beta),
    decreases i,
{
    if i > 0 {
        let d = s.drop_first();
        assert(fits_timestamp(s[0].spec_start() + alpha));
        assert forall|k: int| 0 <= k < i - 1 implies fits_timestamp(#[trigger] d[k].spec_start() + alpha)
            && fits_timestamp(d[k].spec_end() + beta) by {
            assert(d[k] == s[k + 1]);
        }
        lemma_first_overflow_skip(d, alpha, beta, i - 1);
        assert(d.skip(i - 1) =~= s.skip(i));
    } else {
        assert(s.skip(0) =~= s);
    }
}

impl TimeIntervalSequence {
    /// The temporal transformation `[s, e)` to `[s + alpha, e + beta)`: every
    /// start moves by `alpha` and every end by `beta`. Spans the shift leaves
    /// empty are dropped and spans it brings together merge, so the result is
    /// renormalized. Fails with `BoundOverflow`, naming the first bound
    /// (earliest span first, start before end) that would leave the timestamp
    /// range, and then transforms nothing.
    pub fn transform(&self, alpha: Timestamp, beta: Timestamp) -> (r: Result<Self, IntervalError>)
        ensures
            match r {
                Ok(moved) => {
                    &&& first_overflow(self@, alpha as int, beta as int) is None
                    &&& forall|t: int| #![trigger moved.covers(t)]
                        moved.covers(t) == shifted_cover(self@, alpha as int, beta as int, t)
                },
                Err(e) => e matches IntervalError::BoundOverflow { bound, shift } && first_overflow(
                    self@,
                    alpha as int,
                    beta as int,
                ) == Some((bound as int, shift as int)),
            },
    {
        proof {
            use_type_invariant(self);
        }
        let n = self.spans.len();
        let mut i: usize = 0;
        while i < n
            invariant
                n == self@.len(),
                0 <= i <= n,
                self@ == self.spans@,
                forall|k: int|
                    0 <= k < i ==> fits_timestamp(#[trigger] self@[k].spec_start() + alpha)
                        && fits_timestamp(self@[k].spec_end() + beta),
            decreases n - i,
        {
            let (s, e) = self.spans[i].bounds();
            proof {
                lemma_first_overflow_skip(self@, alpha as int, beta as int, i as int);
                assert(self@.skip(i as int)[0] == self@[i as int]);
                assert(self@.skip(i as int).drop_first() =~= self@.skip(i + 1));
            }
            if s.checked_add(alpha).is_none() {
                return Err(IntervalError::BoundOverflow { bound: s, shift: alpha });
            }
            if e.checked_add(beta).is_none() {
                return Err(IntervalError::BoundOverflow { bound: e, shift: beta });
            }
            assert(fits_timestamp(self@[i as int].spec_start() + alpha));
            assert(fits_timestamp(self@[i as int].spec_end() + beta));
            assert forall|k: int| 0 <= k < i + 1 implies fits_timestamp(
                #[trigger] self@[k].spec_start() + alpha,
            ) && fits_timestamp(self@[k].spec_end() + beta) by {}
            i = i + 1;
        }
        proof {
            lemma_first_overflow_skip(self@, alpha as int, beta as int, n as int);
            assert(self@.skip(n as int).len() == 0);
        }
        let mut shifted: Vec<TimeIntervalEvent<()>> = Vec::new();
        let mut i: usize = 0;
        while i < n
            invariant
                n == self@.len(),
                0 <= i <= n,
                self@ == self.spans@,
                normalized(self@),
                forall|k: int|
                    0 <= k < n ==> fits_timestamp(#[trigger] self@[k].spec_start() + alpha)
                        && fits_timestamp(self@[k].spec_end() + beta),
                forall|k: int| 0 <= k < shifted@.len() ==> #[trigger] shifted@[k].valid(),
                time_sorted(shifted@),
                shifted@.len() > 0 && i < n ==> shifted@.last().spec_start() < self@[i as int].spec_start()
                    + alpha,
                forall|t: int| #![trigger spans_cover(shifted@, t)]
                    spans_cover(shifted@, t) == shifted_cover(self@.take(i as int), alpha as int, beta as int, t),
            decreases n - i,
        {
            let (s, e) = self.spans[i].bounds();
            assert(fits_timestamp(self@[i as int].spec_start() + alpha));
            let ns = s + alpha;
            let ne = e + beta;
            let ghost prev = shifted@;
            let ghost cur = self@[i as int];
            if ns < ne {
                shifted.push(TimeIntervalEvent::raw(ns, ne));
                proof {
                    assert forall|a: int, b: int| 0 <= a <= b < shifted@.len() implies #[trigger] shifted@[a].time_key()
                        <= #[trigger] shifted@[b].time_key() by {
                        if b < prev.len() {
                            assert(prev[a].time_key() <= prev[b].time_key());
                        } else if a < prev.len() {
                            assert(prev[a].time_key() <= prev[prev.len() - 1].time_key());
                        }
                    }
                }
            }
            proof {
                let tk = self@.take(i as int);
                let tk1 = self@.take(i + 1);
                assert forall|t: int| #![trigger spans_cover(shifted@, t)] spans_cover(shifted@, t)
                    == shifted_cover(tk1, alpha as int, beta as int, t) by {
                    if spans_cover(shifted@, t) {
                        let m = choose|m: int| 0 <= m < shifted@.len() && #[trigger] shifted@[m].covers(t);
                        if m < prev.len() {
                            assert(prev[m].covers(t));
                            assert(spans_cover(prev, t));
                            let q = choose|q: int| 0 <= q < tk.len() && #[trigger] shifted_covers(tk[q], alpha as int, beta as int, t);
                            assert(tk1[q] == tk[q]);
                        } else {
                            assert(tk1[i as int] == cur);
                            assert(shifted_covers(tk1[i as int], alpha as int, beta as int, t));
                        }
                    }
                    if shifted_cover(tk1, alpha as int, beta as int, t) {
                        let q = choose|q: int| 0 <= q < tk1.len() && #[trigger] shifted_covers(tk1[q], alpha as int, beta as int, t);
                        if q < i {
                            assert(tk[q] == tk1[q]);
                            assert(shifted_covers(tk[q], alpha as int, beta as int, t));
                            assert(shifted_cover(tk, alpha as int, beta as int, t));
                            assert(spans_cover(prev, t));
                            let m = choose|m: int| 0 <= m < prev.len() && #[trigger] prev[m].covers(t);
                            assert(shifted@[m].covers(t));
                        } else {
                            assert(tk1[q] == cur);
                            assert(shifted@[prev.len() as int].covers(t));
                        }
                    }
                }
                if i + 1 < n && shifted@.len() > 0 {
                    assert(cur.spec_end() < self@[i + 1].spec_start());
                    assert(cur.valid());
                }
            }
            i = i + 1;
        }
        let spans = sweep(&shifted);
        proof {
            assert(self@.take(n as int) =~= self@);
        }
        let total = measure(&spans);
        Ok(TimeIntervalSequence { spans, total })
    }

    /// The total time the timeline covers: the sum of its spans' lengths,
    /// which, the spans being disjoint, counts every covered instant once.
    /// The total is kept up to date as spans arrive and leave, so reading it
    /// is constant time.
    pub fn active_duration(&self) -> (r: u64)
        ensures
            r == total_length(self@),
    {
        proof {
            use_type_invariant(self);
        }
        self.total
    }
}

/// The length of a span, which is positive and fits in a `u64`.
fn span_length(span: &TimeIntervalEvent<()>) -> (r: u64)
    ensures
        r == span.spec_end() - span.spec_start(),
        r > 0,
{
    let (s, e) = span.bounds();
    (e as i128 - s as i128) as u64
}

/// The summed lengths of normalized spans, counted in one pass.
fn measure(spans: &Vec<TimeIntervalEvent<()>>) -> (r: u64)
    requires
        normalized(spans@),
    ensures
        r == total_length(spans@),
{
    let n = spans.len();
    let mut total: u64 = 0;
    let mut i: usize = 0;
    while i < n
        invariant
            n == spans@.len(),
            0 <= i <= n,
            normalized(spans@),
            total == total_length(spans@.take(i as int)),
        decreases n - i,
    {
        proof {
            assert(spans@.take(i + 1).drop_last() =~= spans@.take(i as int));
            lemma_total_length_prefix_bounded(spans@, i + 1);
        }
        total = total + span_length(&spans[i]);
        i = i + 1;
    }
    proof {
        assert(spans@.take(n as int) =~= spans@);
    }
    total
}

/// The summed lengths of the spans of `s`.
pub open spec fn total_length(s: Seq<TimeIntervalEvent<()>>) -> int
    decreases s.len(),
{
    if s.len() == 0 {
        0
    } else {
        total_length(s.drop_last()) + (s.last().spec_end() - s.last().spec_start())
    }
}

/// The spans of a non-empty normalized sequence fit between its first start
/// and its last end.
proof fn lemma_total_length_span(s: Seq<TimeIntervalEvent<()>>)
    requires
        normalized(s),
        s.len() > 0,
    ensures
        0 <= total_length(s) <= s.last().spec_end() - s[0].spec_start(),
    decreases s.len(),
{
    let d = s.drop_last();
    assert(s.last().valid());
    assert(s.last() == s[s.len() - 1]);
    assert(total_length(s) == total_length(d) + (s.last().spec_end() - s.last().spec_start()));
    if d.len() == 0 {
        assert(total_length(d) == 0);
    } else {
        assert(normalized(d)) by {
            assert forall|i: int, j: int| 0 <= i < j < d.len() implies #[trigger] d[i].spec_end()
                < #[trigger] d[j].spec_start() by {
                assert(s[i].spec_end() < s[j].spec_start());
            }
        }
        lemma_total_length_span(d);
        assert(d.last() == s[s.len() - 2]);
        assert(s[s.len() - 2].spec_end() < s[s.len() - 1].spec_start());
        assert(d[0] == s[0]);
    }
}

/// The total length of a normalized sequence fits in a `u64`.
proof fn lemma_total_length_bounded(s: Seq<TimeIntervalEvent<()>>)
    requires
        normalized(s),
    ensures
        0 <= total_length(s) <= u64::MAX,
{
    if s.len() > 0 {
        lemma_total_length_span(s);
        assert(s[0].valid() && s.last().valid());
    }
}

/// Every prefix of a normalized sequence is normalized, so its total fits.
proof fn lemma_total_length_prefix_bounded(s: Seq<TimeIntervalEvent<()>>, k: int)
    requires
        normalized(s),
        0 <= k <= s.len(),
    ensures
        0 <= total_length(s.take(k)) <= u64::MAX,
{
    let p = s.take(k);
    assert(normalized(p)) by {
        assert forall|i: int| 0 <= i < p.len() implies #[trigger] p[i].valid() by {
            assert(p[i] == s[i]);
        }
        assert forall|i: int, j: int| 0 <= i < j < p.len() implies #[trigger] p[i].spec_end()
            < #[trigger] p[j].spec_start() by {
            assert(s[i].spec_end() < s[j].spec_start());
        }
    }
    lemma_total_length_bounded(p);
}

/// `transform(alpha, beta)` fails exactly when some span's start moved by
/// `alpha`, or its end moved by `beta`, leaves the range of timestamps. When
/// it fails, it names such a bound with the shift it was asked to take: the
/// first one, earliest span first and start before end, so every bound
/// before it moves safely.
pub proof fn law_transform_fails_only_on_overflow(
    s: Seq<TimeIntervalEvent<()>>,
    alpha: int,
    beta: int,
)
    ensures
        first_overflow(s, alpha, beta) is None <==> (forall|k: int|
            0 <= k < s.len() ==> i64::MIN <= #[trigger] s[k].spec_start() + alpha <= i64::MAX
                && i64::MIN <= s[k].spec_end() + beta <= i64::MAX),
        first_overflow(s, alpha, beta) matches Some((bound, shift)) ==> exists|k: int|
            0 <= k < s.len() && (forall|j: int|
                0 <= j < k ==> i64::MIN <= #[trigger] s[j].spec_start() + alpha <= i64::MAX
                    && i64::MIN <= s[j].spec_end() + beta <= i64::MAX) && ((bound
                == s[k].spec_start() && shift == alpha && !(i64::MIN <= bound + alpha
                <= i64::MAX)) || (bound == s[k].spec_end() && shift == beta && i64::MIN
                <= s[k].spec_start() + alpha <= i64::MAX && !(i64::MIN <= bound + beta
                <= i64::MAX))),
    decreases s.len(),
{
    if s.len() > 0 {
        let d = s.drop_first();
        law_transform_fails_only_on_overflow(d, alpha, beta);
        assert forall|k: int| 0 < k < s.len() implies #[trigger] s[k] == d[k - 1] by {}
        if fits_timestamp(s[0].spec_start() + alpha) && fits_timestamp(s[0].spec_end() + beta) {
            if first_overflow(d, alpha, beta) is None {
                assert forall|k: int| 0 <= k < s.len() implies i64::MIN <= #[trigger] s[k].spec_start()
                    + alpha <= i64::MAX && i64::MIN <= s[k].spec_end() + beta <= i64::MAX by {
                    if k > 0 {
                        assert(s[k] == d[k - 1]);
                    }
                }
            } else {
                let (bound, shift) = first_overflow(d, alpha, beta).unwrap();
                let k = choose|k: int|
                    0 <= k < d.len() && (forall|j: int|
                        0 <= j < k ==> i64::MIN <= #[trigger] d[j].spec_start() + alpha <= i64::MAX
                            && i64::MIN <= d[j].spec_end() + beta <= i64::MAX) && ((bound
                        == d[k].spec_start() && shift == alpha && !(i64::MIN <= bound + alpha
                        <= i64::MAX)) || (bound == d[k].spec_end() && shift == beta && i64::MIN
                        <= d[k].spec_start() + alpha <= i64::MAX && !(i64::MIN <= bound + beta
                        <= i64::MAX)));
                assert(s[k + 1] == d[k]);
                assert forall|j: int| 0 <= j < k + 1 implies i64::MIN <= #[trigger] s[j].spec_start()
                    + alpha <= i64::MAX && i64::MIN <= s[j].spec_end() + beta <= i64::MAX by {
                    if j > 0 {
                        assert(s[j] == d[j - 1]);
                    }
                }
                assert(!(forall|k: int|
                    0 <= k < s.len() ==> i64::MIN <= #[trigger] s[k].spec_start() + alpha <= i64::MAX
                        && i64::MIN <= s[k].spec_end() + beta <= i64::MAX)) by {
                    assert(s[k + 1] == d[k]);
                }
            }
        } else {
            assert(!(forall|k: int|
                0 <= k < s.len() ==> i64::MIN <= #[trigger] s[k].spec_start() + alpha <= i64::MAX
                    && i64::MIN <= s[k].spec_end() + beta <= i64::MAX)) by {
                assert(s[0] == s[0]);
            }
            assert(forall|j: int|
                0 <= j < 0 ==> i64::MIN <= #[trigger] s[j].spec_start() + alpha <= i64::MAX
                    && i64::MIN <= s[j].spec_end() + beta <= i64::MAX);
        }
    }
}

/// After `transform(alpha, beta)` an instant is covered exactly when some
/// span, its start moved by `alpha` and its end by `beta`, contains it.
pub proof fn law_transform_moves_every_bound(
    s: Seq<TimeIntervalEvent<()>>,
    alpha: int,
    beta: int,
    t: int,
)
    ensures
        shifted_cover(s, alpha, beta, t) <==> exists|k: int|
            0 <= k < s.len() && #[trigger] s[k].spec_start() + alpha <= t && t < s[k].spec_end()
                + beta,
{
    if exists|k: int|
        0 <= k < s.len() && #[trigger] s[k].spec_start() + alpha <= t && t < s[k].spec_end() + beta {
        let k = choose|k: int|
            0 <= k < s.len() && #[trigger] s[k].spec_start() + alpha <= t && t < s[k].spec_end()
                + beta;
        assert(shifted_covers(s[k], alpha, beta, t));
    }
}

/// Lengths add up across a concatenation.
proof fn lemma_total_length_concat(a: Seq<TimeIntervalEvent<()>>, b: Seq<TimeIntervalEvent<()>>)
    ensures
        total_length(a + b) == total_length(a) + total_length(b),
    decreases b.len(),
{
    if b.len() == 0 {
        assert(a + b =~= a);
    } else {
        assert((a + b).drop_last() =~= a + b.drop_last());
        assert((a + b).last() == b.last());
        lemma_total_length_concat(a, b.drop_last());
    }
}

/// Any stretch of consecutive spans of a normalized sequence is normalized.
proof fn lemma_normalized_subrange(s: Seq<TimeIntervalEvent<()>>, a: int, b: int)
    requires
        normalized(s),
        0 <= a <= b <= s.len(),
    ensures
        normalized(s.subrange(a, b)),
{
    let p = s.subrange(a, b);
    assert forall|i: int| 0 <= i < p.len() implies #[trigger] p[i].valid() by {
        assert(p[i] == s[a + i]);
    }
    assert forall|i: int, j: int| 0 <= i < j < p.len() implies #[trigger] p[i].spec_end()
        < #[trigger] p[j].spec_start() by {
        assert(s[a + i].spec_end() < s[a + j].spec_start());
    }
}

/// The total of a normalized sequence is that of the spans before `a`, plus
/// those from `a` up to `b`, plus those from `b` on, and each part is a
/// non-negative amount that fits in a `u64`.
proof fn lemma_total_length_split(s: Seq<TimeIntervalEvent<()>>, a: int, b: int)
    requires
        normalized(s),
        0 <= a <= b <= s.len(),
    ensures
        total_length(s) == total_length(s.take(a)) + total_length(s.subrange(a, b))
            + total_length(s.skip(b)),
        0 <= total_length(s.take(a)) <= u64::MAX,
        0 <= total_length(s.subrange(a, b)) <= u64::MAX,
        0 <= total_length(s.skip(b)) <= u64::MAX,
{
    assert(s =~= s.take(a) + s.subrange(a, b) + s.skip(b));
    lemma_total_length_concat(s.take(a) + s.subrange(a, b), s.skip(b));
    lemma_total_length_concat(s.take(a), s.subrange(a, b));
    assert(s.take(a) =~= s.subrange(0, a));
    assert(s.skip(b) =~= s.subrange(b, s.len() as int));
    lemma_normalized_subrange(s, 0, a);
    lemma_normalized_subrange(s, a, b);
    lemma_normalized_subrange(s, b, s.len() as int);
    lemma_total_length_bounded(s.take(a));
    lemma_total_length_bounded(s.subrange(a, b));
    lemma_total_length_bounded(s.skip(b));
}

/// Replacing the spans from `a` up to `b` by the single span `m` trades their
/// total for the length of `m`.
proof fn lemma_total_length_replace(
    s: Seq<TimeIntervalEvent<()>>,
    a: int,
    b: int,
    m: TimeIntervalEvent<()>,
)
    requires
        normalized(s),
        0 <= a <= b <= s.len(),
    ensures
        total_length(s.take(a).push(m) + s.skip(b)) == total_length(s) - total_length(
            s.subrange(a, b),
        ) + (m.spec_end() - m.spec_start()),
{
    lemma_total_length_split(s, a, b);
    lemma_total_length_concat(s.take(a).push(m), s.skip(b));
    assert(s.take(a).push(m).drop_last() =~= s.take(a));
}

/// Union and intersection do not depend on the order of their operands.
pub proof fn law_union_and_intersection_commute(
    a: TimeIntervalSequence,
    b: TimeIntervalSequence,
    a_or_b: TimeIntervalSequence,
    b_or_a: TimeIntervalSequence,
    a_and_b: TimeIntervalSequence,
    b_and_a: TimeIntervalSequence,
)
    requires
        a_or_b.wf(),
        b_or_a.wf(),
        a_and_b.wf(),
        b_and_a.wf(),
        forall|t: int| #[trigger] a_or_b.covers(t) == (a.covers(t) || b.covers(t)),
        forall|t: int| #[trigger] b_or_a.covers(t) == (b.covers(t) || a.covers(t)),
        forall|t: int| #[trigger] a_and_b.covers(t) == (a.covers(t) && b.covers(t)),
        forall|t: int| #[trigger] b_and_a.covers(t) == (b.covers(t) && a.covers(t)),
    ensures
        a_or_b@ == b_or_a@,
        a_and_b@ == b_and_a@,
{
    law_equal_iff_same_coverage(a_or_b, b_or_a);
    law_equal_iff_same_coverage(a_and_b, b_and_a);
}

/// When every instant of `b` is covered by `a`, their intersection is `b`,
/// their union is `a`, and `b` minus `a` is empty.
pub proof fn law_contained_timeline_is_absorbed(
    a: TimeIntervalSequence,
    b: TimeIntervalSequence,
    a_and_b: TimeIntervalSequence,
    a_or_b: TimeIntervalSequence,
    b_minus_a: TimeIntervalSequence,
)
    requires
        a.wf(),
        b.wf(),
        a_and_b.wf(),
        a_or_b.wf(),
        b_minus_a.wf(),
        forall|t: int| b.covers(t) ==> a.covers(t),
        forall|t: int| #[trigger] a_and_b.covers(t) == (a.covers(t) && b.covers(t)),
        forall|t: int| #[trigger] a_or_b.covers(t) == (a.covers(t) || b.covers(t)),
        forall|t: int| #[trigger] b_minus_a.covers(t) == (b.covers(t) && !a.covers(t)),
    ensures
        a_and_b@ == b@,
        a_or_b@ == a@,
        b_minus_a@.len() == 0,
{
    law_equal_iff_same_coverage(a_and_b, b);
    law_equal_iff_same_coverage(a_or_b, a);
    if b_minus_a@.len() > 0 {
        assert(b_minus_a@[0].valid());
        assert(b_minus_a@[0].covers(b_minus_a@[0].spec_start()));
        assert(b_minus_a.covers(b_minus_a@[0].spec_start()));
    }
}

/// The symmetric difference is the union minus the intersection.
pub proof fn law_symmetric_difference_is_union_minus_intersection(
    a: TimeIntervalSequence,
    b: TimeIntervalSequence,
    xor: TimeIntervalSequence,
    either_not_both: TimeIntervalSequence,
)
    requires
        xor.wf(),
        either_not_both.wf(),
        forall|t: int| #[trigger] xor.covers(t) == (a.covers(t) != b.covers(t)),
        forall|t: int| #[trigger] either_not_both.covers(t) == ((a.covers(t) || b.covers(t)) && !(
        a.covers(t) && b.covers(t))),
    ensures
        xor@ == either_not_both@,
{
    law_equal_iff_same_coverage(xor, either_not_both);
}

/// Two sequences are equal exactly when they cover the same instants,
/// however they were built.
pub proof fn law_equal_iff_same_coverage(a: TimeIntervalSequence, b: TimeIntervalSequence)
    requires
        a.wf(),
        b.wf(),
    ensures
        (a@ == b@) == (forall|t: int| a.covers(t) == b.covers(t)),
{
    if forall|t: int| a.covers(t) == b.covers(t) {
        assert forall|t: int| spans_cover(a@, t) == spans_cover(b@, t) by {
            assert(a.covers(t) == b.covers(t));
        }
        lemma_coverage_determines(a@, b@);
    }
}

/// Building a sequence by inserting spans one at a time and building it from
/// all of them at once agree: two normalized sequences that each cover
/// exactly the instants of the same spans are equal.
pub proof fn law_insertion_and_bulk_construction_agree(
    inserted: TimeIntervalSequence,
    bulk: TimeIntervalSequence,
    spans: Seq<TimeIntervalEvent<()>>,
)
    requires
        inserted.wf(),
        bulk.wf(),
        forall|t: int| inserted.covers(t) == spans_cover(spans, t),
        forall|t: int| bulk.covers(t) == spans_cover(spans, t),
    ensures
        inserted@ == bulk@,
{
    law_equal_iff_same_coverage(inserted, bulk);
}

/// Inserting a span whose instants are all covered already changes nothing.
pub proof fn law_covered_insert_changes_nothing(
    before: TimeIntervalSequence,
    span: TimeIntervalEvent<()>,
    after: TimeIntervalSequence,
)
    requires
        before.wf(),
        after.wf(),
        forall|t: int| after.covers(t) == (before.covers(t) || span.covers(t)),
        forall|t: int| span.covers(t) ==> before.covers(t),
    ensures
        after@ == before@,
{
    law_equal_iff_same_coverage(after, before);
}

/// In a normalized sequence at most one span covers any instant.
pub proof fn law_at_most_one_span_covers(s: TimeIntervalSequence, t: int, i: int, j: int)
    requires
        s.wf(),
        0 <= i < s@.len(),
        0 <= j < s@.len(),
        s@[i].covers(t),
        s@[j].covers(t),
    ensures
        i == j,
{
    if i < j {
        assert(s@[i].spec_end() < s@[j].spec_start());
    }
    if j < i {
        assert(s@[j].spec_end() < s@[i].spec_start());
    }
}

/// The active duration depends on the covered instants alone: sequences
/// covering the same instants report the same total, however they were built.
pub proof fn law_active_duration_follows_coverage(a: TimeIntervalSequence, b: TimeIntervalSequence)
    requires
        a.wf(),
        b.wf(),
        forall|t: int| #[trigger] a.covers(t) == b.covers(t),
    ensures
        total_length(a@) == total_length(b@),
{
    law_equal_iff_same_coverage(a, b);
}

/// The instants a sequence of spans covers.
pub open spec fn covered_instants(s: Seq<TimeIntervalEvent<()>>) -> Set<int> {
    Set::new(|t: int| spans_cover(s, t))
}

/// A normalized sequence covers finitely many instants, as many as the
/// summed lengths of its spans.
proof fn lemma_covered_instants_len(s: Seq<TimeIntervalEvent<()>>)
    requires
        normalized(s),
    ensures
        covered_instants(s).finite(),
        covered_instants(s).len() == total_length(s),
    decreases s.len(),
{
    if s.len() == 0 {
        assert(covered_instants(s) =~= Set::<int>::empty());
    } else {
        let d = s.drop_last();
        let last = s.last();
        let n = s.len() as int;
        assert(last == s[n - 1]);
        assert(last.valid());
        assert(normalized(d)) by {
            assert forall|i: int| 0 <= i < d.len() implies #[trigger] d[i].valid() by {
                assert(d[i] == s[i]);
            }
            assert forall|i: int, j: int| 0 <= i < j < d.len() implies #[trigger] d[i].spec_end()
                < #[trigger] d[j].spec_start() by {
                assert(s[i].spec_end() < s[j].spec_start());
            }
        }
        lemma_covered_instants_len(d);
        let head = covered_instants(d);
        let tail = vstd::set_lib::set_int_range(last.spec_start(), last.spec_end());
        vstd::set_lib::lemma_int_range(last.spec_start(), last.spec_end());
        assert(covered_instants(s) =~= head + tail) by {
            assert forall|t: int| covered_instants(s).contains(t) == (head + tail).contains(t) by {
                if spans_cover(s, t) {
                    let k = choose|k: int| 0 <= k < s.len() && #[trigger] s[k].covers(t);
                    if k < n - 1 {
                        assert(d[k].covers(t));
                        assert(spans_cover(d, t));
                    }
                }
                if spans_cover(d, t) {
                    let k = choose|k: int| 0 <= k < d.len() && #[trigger] d[k].covers(t);
                    assert(s[k].covers(t));
                }
                if tail.contains(t) {
                    assert(s[n - 1].covers(t));
                }
            }
        }
        assert(head.disjoint(tail)) by {
            assert forall|t: int| !(head.contains(t) && tail.contains(t)) by {
                if spans_cover(d, t) && tail.contains(t) {
                    let k = choose|k: int| 0 <= k < d.len() && #[trigger] d[k].covers(t);
                    assert(s[k].spec_end() < s[n - 1].spec_start());
                }
            }
        }
        vstd::set_lib::lemma_set_disjoint_lens(head, tail);
    }
}

/// The active duration counts covered instants: the spans' lengths add up
/// to the number of instants the timeline covers.
pub proof fn law_active_duration_counts_covered_instants(s: TimeIntervalSequence)
    requires
        s.wf(),
    ensures
        covered_instants(s@).finite(),
        covered_instants(s@).len() == total_length(s@),
{
    lemma_covered_instants_len(s@);
}

/// A transformation either drops spans or merges them, never both: when
/// starts move no further than ends (`alpha <= beta`) every span stays
/// non-empty, and when they move at least as far (`alpha >= beta`) the moved
/// spans stay apart, so none merge.
pub proof fn law_transform_drops_or_merges_never_both(s: TimeIntervalSequence, alpha: int, beta: int)
    requires
        s.wf(),
    ensures
        alpha <= beta ==> forall|i: int|
            0 <= i < s@.len() ==> #[trigger] s@[i].spec_start() + alpha < s@[i].spec_end() + beta,
        alpha >= beta ==> forall|i: int, j: int|
            0 <= i < j < s@.len() ==> #[trigger] s@[i].spec_end() + beta < #[trigger] s@[j].spec_start()
                + alpha,
{
    assert forall|i: int| 0 <= i < s@.len() && alpha <= beta implies #[trigger] s@[i].spec_start()
        + alpha < s@[i].spec_end() + beta by {
        assert(s@[i].valid());
    }
    assert forall|i: int, j: int| 0 <= i < j < s@.len() && alpha >= beta implies #[trigger] s@[i].spec_end()
        + beta < #[trigger] s@[j].spec_start() + alpha by {
        assert(s@[i].spec_end() < s@[j].spec_start());
    }
}

/// Merging into a sequence follows the rule the union of a pair applies:
/// inserting a span into a sequence of one span leaves exactly the spans the
/// union of the two intervals returns.
pub proof fn law_insert_follows_pair_union(
    before: TimeIntervalSequence,
    span: TimeIntervalEvent<()>,
    after: TimeIntervalSequence,
)
    requires
        before.wf(),
        before@.len() == 1,
        span.valid(),
        after.wf(),
        forall|t: int| #[trigger] after.covers(t) == (before.covers(t) || span.covers(t)),
    ensures
        bounds_seq(after@) == before@[0].union_bounds(&span),
{
    let a = before@[0];
    assert(a.valid());
    let u = a.union_bounds(&span);
    law_union_covers_either(a, span);
    let cand = Seq::new(u.len(), |i: int| TimeIntervalEvent::<()>::spec_span(u[i].0, u[i].1));
    assert forall|i: int| 0 <= i < u.len() implies #[trigger] cand[i].spec_start() == u[i].0
        && cand[i].spec_end() == u[i].1 && cand[i].valid() by {
        assert(cand[i] == TimeIntervalEvent::<()>::spec_span(u[i].0, u[i].1));
        TimeIntervalEvent::<()>::lemma_spec_span(u[i].0, u[i].1);
    }
    assert(normalized(cand)) by {
        assert forall|i: int, j: int| 0 <= i < j < cand.len() implies #[trigger] cand[i].spec_end()
            < #[trigger] cand[j].spec_start() by {
            assert(cand[i].spec_start() == u[i].0);
            assert(cand[j].spec_start() == u[j].0);
        }
    }
    assert forall|t: int| spans_cover(after@, t) == spans_cover(cand, t) by {
        assert(after.covers(t) == (before.covers(t) || span.covers(t)));
        assert(before.covers(t) == a.covers(t)) by {
            if before.covers(t) {
                let k = choose|k: int| 0 <= k < before@.len() && #[trigger] before@[k].covers(t);
                assert(k == 0);
            }
            if a.covers(t) {
                assert(before@[0].covers(t));
            }
        }
        assert(pairs_cover(u, t) == (a.covers(t) || span.covers(t)));
        if pairs_cover(u, t) {
            let k = choose|k: int| 0 <= k < u.len() && #[trigger] u[k].0 <= t && t < u[k].1;
            assert(cand[k].spec_start() == u[k].0);
            assert(cand[k].covers(t));
        }
        if spans_cover(cand, t) {
            let k = choose|k: int| 0 <= k < cand.len() && #[trigger] cand[k].covers(t);
            assert(cand[k].spec_start() == u[k].0);
            assert(u[k].0 <= t && t < u[k].1);
        }
    }
    lemma_coverage_determines(after@, cand);
    assert forall|i: int| 0 <= i < u.len() implies #[trigger] bounds_seq(after@)[i] == u[i] by {
        assert(cand[i].spec_start() == u[i].0);
    }
    assert(bounds_seq(after@) =~= u);
}

} // verus!
