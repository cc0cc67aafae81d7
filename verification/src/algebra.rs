//! Set-algebra operations on time intervals given as bare `(start, end)` pairs.

use vstd::prelude::*;

use crate::primitives::interval::{max_int, min_int};

verus! {

/// The overlap of the half-open intervals `[a.0, a.1)` and `[b.0, b.1)` as
/// `(start, end)`, or `None` when it holds no instant. Intervals that merely
/// touch do not overlap, since `end` is exclusive.
pub fn intersection(a: (i64, i64), b: (i64, i64)) -> (r: Option<(i64, i64)>)
    ensures
        r == (if max_int(a.0 as int, b.0 as int) < min_int(a.1 as int, b.1 as int) {
            Some((max_int(a.0 as int, b.0 as int) as i64, min_int(a.1 as int, b.1 as int) as i64))
        } else {
            None
        }),
{
    let start = if a.0 >= b.0 {
        a.0
    } else {
        b.0
    };
    let end = if a.1 <= b.1 {
        a.1
    } else {
        b.1
    };
    if start < end {
        Some((start, end))
    } else {
        None
    }
}

} // verus!
