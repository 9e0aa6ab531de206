//! Rows in time order and searches over them.

use crate::clock::MINUTE_US;
use std::collections::VecDeque;
use vstd::prelude::*;

verus! {

/// A row that belongs to an instant.
pub trait Stamped: Sized {
    /// The instant of the row.
    spec fn at(&self) -> i64;

    /// The instant of the row.
    fn ts(&self) -> (out: i64)
        ensures
            out == self.at(),
    ;
}

/// The same items again.
pub(crate) fn copied<T: Copy>(items: &[T]) -> (out: Vec<T>)
    ensures
        out@ == items@,
{
    let mut out: Vec<T> = Vec::new();
    let mut i: usize = 0;
    while i < items.len()
        invariant
            i <= items@.len(),
            out@ =~= items@.take(i as int),
        decreases items@.len() - i,
    {
        out.push(items[i]);
        i += 1;
    }
    proof {
        assert(items@.take(i as int) =~= items@);
    }
    out
}

/// The instants of a run of rows.
pub open spec fn stamps<T: Stamped>(rows: Seq<T>) -> Seq<i64> {
    Seq::new(rows.len(), |i: int| rows[i].at())
}

/// Instants in order, repetitions allowed.
pub open spec fn in_order(ts: Seq<i64>) -> bool {
    forall|i: int, j: int| 0 <= i <= j < ts.len() ==> ts[i] <= ts[j]
}

/// The place where bisection of `ts[lo..hi]` for `target` ends.
pub open spec fn bisect(ts: Seq<i64>, target: i64, lo: int, hi: int) -> int
    decreases hi - lo,
{
    if lo >= hi {
        lo
    } else {
        let mid = (lo + hi) / 2;
        if ts[mid] < target {
            bisect(ts, target, mid + 1, hi)
        } else {
            bisect(ts, target, lo, mid)
        }
    }
}

/// The index of the first row that is not before `target`, found by bisection.
pub open spec fn first_at_or_after(ts: Seq<i64>, target: i64) -> int {
    bisect(ts, target, 0, ts.len() as int)
}

/// Bisection stays within its range, and the rows next to its end lie on the
/// right sides of the target.
pub proof fn lemma_bisect(ts: Seq<i64>, target: i64, lo: int, hi: int)
    requires
        0 <= lo <= hi <= ts.len(),
        lo > 0 ==> ts[lo - 1] < target,
        hi < ts.len() ==> ts[hi] >= target,
    ensures
        lo <= bisect(ts, target, lo, hi) <= hi,
        bisect(ts, target, lo, hi) > 0 ==> ts[bisect(ts, target, lo, hi) - 1] < target,
        bisect(ts, target, lo, hi) < ts.len() ==> ts[bisect(ts, target, lo, hi)] >= target,
    decreases hi - lo,
{
    if lo < hi {
        let mid = (lo + hi) / 2;
        if ts[mid] < target {
            lemma_bisect(ts, target, mid + 1, hi);
        } else {
            lemma_bisect(ts, target, lo, mid);
        }
    }
}

/// Over rows in order the search splits them: all rows before the index found
/// are before the target, all others are not.
pub proof fn lemma_first_at_or_after(ts: Seq<i64>, target: i64)
    requires
        in_order(ts),
    ensures
        0 <= first_at_or_after(ts, target) <= ts.len(),
        forall|i: int|
            0 <= i < ts.len() ==> (#[trigger] ts[i] < target <==> i < first_at_or_after(ts, target)),
{
    lemma_bisect(ts, target, 0, ts.len() as int);
    let k = first_at_or_after(ts, target);
    assert forall|i: int| 0 <= i < ts.len() implies (#[trigger] ts[i] < target <==> i < k) by {
        if i < k {
            assert(ts[i] <= ts[k - 1]);
        } else {
            assert(ts[k] <= ts[i]);
        }
    }
}

/// Over rows in order a split is where the search ends.
pub proof fn lemma_first_at_or_after_is(ts: Seq<i64>, target: i64, k: int)
    requires
        in_order(ts),
        0 <= k <= ts.len(),
        forall|i: int| 0 <= i < k ==> #[trigger] ts[i] < target,
        forall|i: int| k <= i < ts.len() ==> #[trigger] ts[i] >= target,
    ensures
        first_at_or_after(ts, target) == k,
{
    lemma_first_at_or_after(ts, target);
    let f = first_at_or_after(ts, target);
    if f < k {
        assert(ts[f] < target);
    }
    if k < f {
        assert(ts[k] >= target);
    }
}

/// The index of the first row that is not before `target`.
pub fn lower_bound<T: Stamped>(rows: &[T], target: i64) -> (out: usize)
    ensures
        out == first_at_or_after(stamps(rows@), target),
        out <= rows@.len(),
{
    let mut lo: usize = 0;
    let mut hi: usize = rows.len();
    while lo < hi
        invariant
            lo <= hi <= rows@.len(),
            first_at_or_after(stamps(rows@), target) == bisect(
                stamps(rows@),
                target,
                lo as int,
                hi as int,
            ),
        decreases hi - lo,
    {
        let mid: usize = lo + (hi - lo) / 2;
        assert(mid == (lo + hi) / 2);
        if rows[mid].ts() < target {
            lo = mid + 1;
        } else {
            hi = mid;
        }
    }
    lo
}

/// The last `n` rows of a run, or all of them.
pub open spec fn tail<T>(rows: Seq<T>, n: int) -> Seq<T> {
    rows.subrange(rows.len() - n, rows.len() as int)
}

/// The shorter of two lengths.
pub open spec fn shorter(a: nat, b: nat) -> int {
    if a < b {
        a as int
    } else {
        b as int
    }
}

/// The ends of two histories, cut to the length of the shorter one.
pub fn aligned_event_histories<'a, A, B>(futures: &'a [A], spot: &'a [B]) -> (out: (
    &'a [A],
    &'a [B],
))
    ensures
        out.0@ == tail(futures@, shorter(futures@.len(), spot@.len())),
        out.1@ == tail(spot@, shorter(futures@.len(), spot@.len())),
        out.0@.len() == out.1@.len(),
{
    let n: usize = if futures.len() < spot.len() {
        futures.len()
    } else {
        spot.len()
    };
    (
        vstd::slice::slice_subrange(futures, futures.len() - n, futures.len()),
        vstd::slice::slice_subrange(spot, spot.len() - n, spot.len()),
    )
}

/// A run without its leading rows of which `gone` holds.
pub open spec fn drop_while<T>(rows: Seq<T>, gone: spec_fn(T) -> bool) -> Seq<T>
    decreases rows.len(),
{
    if rows.len() > 0 && gone(rows[0]) {
        drop_while(rows.drop_first(), gone)
    } else {
        rows
    }
}

/// Dropping leading rows leaves the end of the run that starts at the returned
/// index, the first whose row stays.
pub proof fn lemma_drop_while<T>(rows: Seq<T>, gone: spec_fn(T) -> bool) -> (k: int)
    ensures
        0 <= k <= rows.len(),
        drop_while(rows, gone) == rows.subrange(k, rows.len() as int),
        forall|i: int| 0 <= i < k ==> gone(#[trigger] rows[i]),
        k < rows.len() ==> !gone(rows[k]),
    decreases rows.len(),
{
    if rows.len() > 0 && gone(rows[0]) {
        let rest = rows.drop_first();
        let k = lemma_drop_while(rest, gone) + 1;
        assert(rest.subrange(k - 1, rest.len() as int) =~= rows.subrange(k, rows.len() as int));
        assert forall|i: int| 0 <= i < k implies gone(#[trigger] rows[i]) by {
            if i > 0 {
                assert(rest[i - 1] == rows[i]);
            }
        }
        if k < rows.len() {
            assert(rest[k - 1] == rows[k]);
        }
        k
    } else {
        assert(rows.subrange(0, rows.len() as int) =~= rows);
        0
    }
}

/// Nothing is dropped where the first row stays.
pub proof fn lemma_drop_while_none<T>(rows: Seq<T>, gone: spec_fn(T) -> bool)
    requires
        rows.len() > 0 ==> !gone(rows[0]),
    ensures
        drop_while(rows, gone) == rows,
{
}

/// The index of the first row of a queue that is not before `target`.
pub fn lower_bound_queue<T: Stamped>(rows: &VecDeque<T>, target: i64) -> (out: usize)
    ensures
        out == first_at_or_after(stamps(rows@), target),
        out <= rows@.len(),
{
    let mut lo: usize = 0;
    let mut hi: usize = rows.len();
    while lo < hi
        invariant
            lo <= hi <= rows@.len(),
            bisect(stamps(rows@), target, lo as int, hi as int) == first_at_or_after(
                stamps(rows@),
                target,
            ),
        decreases hi - lo,
    {
        let mid: usize = lo + (hi - lo) / 2;
        if rows[mid].ts() < target {
            lo = mid + 1;
        } else {
            hi = mid;
        }
    }
    lo
}

/// The index of the first row that is after `target`.
pub fn upper_bound<T: Stamped>(rows: &[T], target: i64) -> (out: usize)
    requires
        target < i64::MAX,
    ensures
        out == first_at_or_after(stamps(rows@), (target + 1) as i64),
        out <= rows@.len(),
{
    lower_bound(rows, target + 1)
}

/// How a state that has followed a history up to some minute is brought up to the
/// history's end.
#[derive(Clone, Copy, Debug, PartialEq, Eq)]
pub enum SyncPlan {
    /// It has followed nothing yet: start over.
    Rebuild,
    /// It is there already.
    Nothing,
    /// Go on with the row at this place.
    From(usize),
}

/// How a state is brought up to the end of a history: with the rows from the minute after
/// the last one it has followed.
pub open spec fn sync_plan(ts: Seq<i64>, last_ts: Option<i64>) -> SyncPlan {
    match last_ts {
        None => SyncPlan::Rebuild,
        Some(last) => if ts.len() == 0 || ts.last() <= last {
            SyncPlan::Nothing
        } else {
            SyncPlan::From(first_at_or_after(ts, (last + MINUTE_US) as i64) as usize)
        },
    }
}

/// How a state is brought up to the end of a history.
pub fn plan_sync<T: Stamped>(rows: &[T], last_ts: Option<i64>) -> (out: SyncPlan)
    requires
        last_ts matches Some(last) ==> last + MINUTE_US <= i64::MAX,
    ensures
        out == sync_plan(stamps(rows@), last_ts),
        out matches SyncPlan::From(k) ==> k <= rows@.len(),
{
    match last_ts {
        None => SyncPlan::Rebuild,
        Some(last) => {
            let n: usize = rows.len();
            if n == 0 || rows[n - 1].ts() <= last {
                SyncPlan::Nothing
            } else {
                SyncPlan::From(lower_bound(rows, last + MINUTE_US))
            }
        },
    }
}

/// Instants at least a minute apart, in order.
pub open spec fn minutes_apart(ts: Seq<i64>) -> bool {
    forall|i: int, j: int|
        0 <= i < j < ts.len() ==> (#[trigger] ts[i]) + MINUTE_US <= #[trigger] ts[j]
}

/// A state that has followed the first `k` rows of a history goes on with the row at
/// place `k`, or is there already.
pub proof fn law_sync_goes_on(ts: Seq<i64>, k: int)
    requires
        minutes_apart(ts),
        0 < k <= ts.len() <= usize::MAX,
        ts[k - 1] + MINUTE_US <= i64::MAX,
    ensures
        sync_plan(ts, Some(ts[k - 1])) == if k == ts.len() {
            SyncPlan::Nothing
        } else {
            SyncPlan::From(k as usize)
        },
{
    if k < ts.len() {
        assert(ts[k - 1] + MINUTE_US <= ts[k]);
        assert(ts[k] <= ts.last()) by {
            if k < ts.len() - 1 {
                assert(ts[k] + MINUTE_US <= ts[ts.len() - 1]);
            }
        }
        assert(in_order(ts)) by {
            assert forall|i: int, j: int| 0 <= i <= j < ts.len() implies ts[i] <= ts[j] by {
                if i < j {
                    assert(ts[i] + MINUTE_US <= ts[j]);
                }
            }
        }
        let target = (ts[k - 1] + MINUTE_US) as i64;
        assert forall|i: int| 0 <= i < k implies #[trigger] ts[i] < target by {
            if i < k - 1 {
                assert(ts[i] + MINUTE_US <= ts[k - 1]);
            }
        }
        assert forall|i: int| k <= i < ts.len() implies #[trigger] ts[i] >= target by {
            if i > k {
                assert(ts[k] + MINUTE_US <= ts[i]);
            }
        }
        lemma_first_at_or_after_is(ts, target, k);
    }
}

/// A state that has followed nothing starts over, one that has seen the end of a history in
/// order stays as it is, and any other goes on with the rows from the minute after its last
/// one on.
pub proof fn law_sync_plan(ts: Seq<i64>, last_ts: Option<i64>, i: int)
    requires
        in_order(ts),
        0 <= i < ts.len() <= usize::MAX,
        last_ts matches Some(last) ==> last + 60_000_000 <= i64::MAX,
    ensures
        sync_plan(ts, last_ts) is Rebuild <==> last_ts is None,
        last_ts matches Some(last) ==> (sync_plan(ts, last_ts) is Nothing <==> forall|j: int|
            0 <= j < ts.len() ==> #[trigger] ts[j] <= last),
        sync_plan(ts, last_ts) matches SyncPlan::From(k) ==> (k <= i <==> ts[i] >= last_ts->0
            + 60_000_000),
{
    if let Some(last) = last_ts {
        lemma_first_at_or_after(ts, (last + MINUTE_US) as i64);
        assert(ts[i] < last + MINUTE_US <==> i < first_at_or_after(ts, (last + MINUTE_US) as i64));
        if ts.last() <= last {
            assert forall|j: int| 0 <= j < ts.len() implies #[trigger] ts[j] <= last by {
                assert(ts[j] <= ts[ts.len() - 1]);
            }
        } else {
            assert(ts[ts.len() - 1] > last);
        }
    }
}

} // verus!
