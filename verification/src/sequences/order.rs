//! Time order: the key an event is ordered by, the stable sort on that key,
//! and the facts about runs of equal keys that the sequences rest on.

use vstd::prelude::*;

use crate::primitives::{TimeIntervalEvent, TimePointEvent};

verus! {

broadcast use vstd::seq_lib::group_filter_ensures;

/// An event placed on the timeline by one integer key: a point event by its
/// timestamp, an interval by its start.
pub trait TimeKeyed: Sized {
    /// The instant that orders this event.
    spec fn time_key(&self) -> int;

    /// The instant that orders this event.
    fn key(&self) -> (r: i64)
        ensures
            r == self.time_key(),
    ;
}

impl<T> TimeKeyed for TimePointEvent<T> {
    open spec fn time_key(&self) -> int {
        self.spec_timestamp()
    }

    fn key(&self) -> (r: i64) {
        self.timestamp()
    }
}

impl<T> TimeKeyed for TimeIntervalEvent<T> {
    open spec fn time_key(&self) -> int {
        self.spec_start()
    }

    fn key(&self) -> (r: i64) {
        self.start()
    }
}

/// Ordered by key, earliest first.
pub open spec fn time_sorted<E: TimeKeyed>(s: Seq<E>) -> bool {
    forall|i: int, j: int| 0 <= i <= j < s.len() ==> #[trigger] s[i].time_key() <= #[trigger] s[j].time_key()
}

/// Whether an event's key is `k`.
pub open spec fn key_is<E: TimeKeyed>(k: int) -> spec_fn(E) -> bool {
    |e: E| e.time_key() == k
}

/// The events of `s` whose key is `k`, in the order they appear in `s`.
pub open spec fn run_at<E: TimeKeyed>(s: Seq<E>, k: int) -> Seq<E> {
    s.filter(key_is(k))
}

/// `r` holds the events of `s` ordered by key, and events sharing a key in
/// the order they had in `s`: the result of a stable sort of `s`.
pub open spec fn stably_arranges<E: TimeKeyed>(r: Seq<E>, s: Seq<E>) -> bool {
    &&& time_sorted(r)
    &&& forall|k: int| #[trigger] run_at(r, k) == run_at(s, k)
}

/// Sort `v` by key, keeping events that share a key in the order they had.
///
/// Calls `slice::sort_by_key`, whose documentation promises a stable sort:
/// the result is ordered by key, and elements with equal keys keep their
/// relative order. The contract states exactly that.
#[verifier::external_body]
pub(crate) fn sort_by_time<E: TimeKeyed>(v: &mut Vec<E>)
    ensures
        stably_arranges(final(v)@, old(v)@),
{
    v.sort_by_key(|e| e.key());
}

/// When a predicate fails before `lo`, holds on `[lo, hi)` and fails from
/// `hi` on, filtering by it keeps exactly the window `[lo, hi)`.
pub proof fn lemma_filter_window<A>(s: Seq<A>, p: spec_fn(A) -> bool, lo: int, hi: int)
    requires
        0 <= lo <= hi <= s.len(),
        forall|i: int| 0 <= i < lo ==> !p(#[trigger] s[i]),
        forall|i: int| lo <= i < hi ==> p(#[trigger] s[i]),
        forall|i: int| hi <= i < s.len() ==> !p(#[trigger] s[i]),
    ensures
        s.filter(p) == s.subrange(lo, hi),
    decreases s.len(),
{
    reveal(Seq::filter);
    if s.len() == 0 {
        assert(s.filter(p) =~= s.subrange(lo, hi));
    } else {
        let n = s.len() as int;
        let d = s.drop_last();
        if hi < n {
            lemma_filter_window(d, p, lo, hi);
            assert(!p(s[n - 1]));
            assert(d.subrange(lo, hi) =~= s.subrange(lo, hi));
        } else if lo == n {
            lemma_filter_window(d, p, n - 1, n - 1);
            assert(!p(s[n - 1]));
            assert(s.filter(p) =~= s.subrange(lo, hi));
        } else {
            lemma_filter_window(d, p, lo, n - 1);
            assert(p(s[n - 1]));
            assert(d.subrange(lo, n - 1).push(s.last()) =~= s.subrange(lo, hi));
        }
    }
}

/// A sequence ordered by key is determined by its runs: two ordered
/// sequences with the same events at every key are equal.
pub proof fn lemma_sorted_runs_determine<E: TimeKeyed>(a: Seq<E>, b: Seq<E>)
    requires
        time_sorted(a),
        time_sorted(b),
        forall|k: int| #[trigger] run_at(a, k) == run_at(b, k),
    ensures
        a == b,
    decreases a.len(),
{
    reveal(Seq::filter);
    if a.len() == 0 {
        if b.len() > 0 {
            let k = b[0].time_key();
            assert(run_at(b, k).contains(b[0]));
            assert(run_at(a, k).len() == 0);
        }
        assert(a =~= b);
    } else {
        let x = a.last();
        let kx = x.time_key();
        assert(run_at(a, kx).contains(x));
        assert(run_at(b, kx).len() > 0);
        let y = b.last();
        let ky = y.time_key();
        assert(run_at(b, ky).contains(y));
        assert(run_at(a, ky).len() > 0);
        // both last keys are the largest key of either sequence
        let n = a.len() as int;
        let m = b.len() as int;
        assert(a[n - 1] == x);
        assert(b[m - 1] == y);
        let wa = run_at(a, ky)[0];
        assert(run_at(a, ky).contains(wa));
        a.lemma_filter_contains_rev(key_is(ky), wa);
        let ia = choose|i: int| 0 <= i < a.len() && a[i] == wa;
        assert(a[ia].time_key() <= a[n - 1].time_key());
        let wb = run_at(b, kx)[0];
        assert(run_at(b, kx).contains(wb));
        b.lemma_filter_contains_rev(key_is(kx), wb);
        let ib = choose|i: int| 0 <= i < b.len() && b[i] == wb;
        assert(b[ib].time_key() <= b[m - 1].time_key());
        assert(kx == ky);
        assert(run_at(a, kx).last() == x);
        assert(run_at(b, kx).last() == y);
        assert(x == y);
        let da = a.drop_last();
        let db = b.drop_last();
        assert forall|k: int| #[trigger] run_at(da, k) == run_at(db, k) by {
            if k == kx {
                assert(run_at(da, k) =~= run_at(a, k).drop_last());
                assert(run_at(db, k) =~= run_at(b, k).drop_last());
            } else {
                assert(run_at(da, k) == run_at(a, k));
                assert(run_at(db, k) == run_at(b, k));
            }
        }
        lemma_sorted_runs_determine(da, db);
        assert(a =~= da.push(x));
        assert(b =~= db.push(y));
    }
}

/// Two stable arrangements of the same events are the same sequence.
pub proof fn lemma_stable_arrangement_unique<E: TimeKeyed>(r1: Seq<E>, r2: Seq<E>, s: Seq<E>)
    requires
        stably_arranges(r1, s),
        stably_arranges(r2, s),
    ensures
        r1 == r2,
{
    assert forall|k: int| #[trigger] run_at(r1, k) == run_at(r2, k) by {
        assert(run_at(r1, k) == run_at(s, k));
        assert(run_at(r2, k) == run_at(s, k));
    }
    lemma_sorted_runs_determine(r1, r2);
}

/// Sequences with the same runs hold the same events.
pub proof fn lemma_same_runs_same_members<E: TimeKeyed>(a: Seq<E>, b: Seq<E>, x: E)
    requires
        forall|k: int| #[trigger] run_at(a, k) == run_at(b, k),
    ensures
        a.contains(x) <==> b.contains(x),
{
    let k = x.time_key();
    if a.contains(x) {
        let i = choose|i: int| 0 <= i < a.len() && a[i] == x;
        assert(run_at(a, k).contains(a[i]));
        assert(run_at(b, k).contains(x));
        b.lemma_filter_contains_rev(key_is(k), x);
    }
    if b.contains(x) {
        let i = choose|i: int| 0 <= i < b.len() && b[i] == x;
        assert(run_at(b, k).contains(b[i]));
        assert(run_at(a, k).contains(x));
        a.lemma_filter_contains_rev(key_is(k), x);
    }
}

} // verus!
