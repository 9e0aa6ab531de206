//! Windows of a history and how much of them is covered.

use vstd::prelude::*;

use crate::clock;
use crate::clock::MINUTE_US;
use crate::history;
use crate::history::Stamped;
use crate::order::{Key, Price, Quote};

verus! {

/// The places of the rows after `after` and no later than `upto`, among the first `hi`.
pub open spec fn places_within(ts: Seq<i64>, after: int, upto: int, hi: int) -> Seq<int>
    decreases hi,
{
    if hi <= 0 {
        Seq::empty()
    } else if after < ts[hi - 1] <= upto {
        places_within(ts, after, upto, hi - 1).push(hi - 1)
    } else {
        places_within(ts, after, upto, hi - 1)
    }
}

/// Places as mathematical integers.
pub open spec fn as_ints(places: Seq<usize>) -> Seq<int> {
    Seq::new(places.len(), |i: int| places[i] as int)
}

/// The places found are those of the rows within the window, in order, each once.
pub proof fn law_places_within(ts: Seq<i64>, after: int, upto: int, hi: int)
    requires
        0 <= hi <= ts.len(),
    ensures
        ({
            let places = places_within(ts, after, upto, hi);
            &&& forall|p: int|
                0 <= p < places.len() ==> 0 <= #[trigger] places[p] < hi && after < ts[places[p]]
                    <= upto
            &&& forall|p: int, q: int|
                0 <= p < q < places.len() ==> #[trigger] places[p] < #[trigger] places[q]
            &&& forall|i: int|
                0 <= i < hi && after < #[trigger] ts[i] <= upto ==> places.contains(i)
        }),
    decreases hi,
{
    if hi > 0 {
        law_places_within(ts, after, upto, hi - 1);
        let rest = places_within(ts, after, upto, hi - 1);
        let places = places_within(ts, after, upto, hi);
        assert forall|i: int| 0 <= i < hi && after < #[trigger] ts[i] <= upto implies places.contains(
            i,
        ) by {
            if i < hi - 1 {
                assert(rest.contains(i));
                let p = choose|p: int| 0 <= p < rest.len() && rest[p] == i;
                assert(places[p] == i);
            } else {
                assert(places[places.len() - 1] == i);
            }
        }
    }
}

/// The places of the rows after `after` and no later than `upto`.
pub fn rows_within<T: Stamped>(rows: &[T], after: i64, upto: i64) -> (out: Vec<usize>)
    ensures
        out@.map_values(|i: usize| i as int) == places_within(
            history::stamps(rows@),
            after as int,
            upto as int,
            rows@.len() as int,
        ),
{
    let ghost ts = history::stamps(rows@);
    let mut out: Vec<usize> = Vec::new();
    let mut i: usize = 0;
    while i < rows.len()
        invariant
            i <= rows@.len(),
            ts == history::stamps(rows@),
            out@.map_values(|a: usize| a as int) =~= places_within(
                ts,
                after as int,
                upto as int,
                i as int,
            ),
        decreases rows@.len() - i,
    {
        let at: i64 = rows[i].ts();
        assert(ts[i as int] == at);
        if after < at && at <= upto {
            out.push(i);
        }
        i += 1;
    }
    out
}

/// The places of the rows of the last `window_minutes` up to `ts_bucket`.
pub fn window_rows<T: Stamped>(rows: &[T], ts_bucket: i64, window_minutes: i64) -> (out: Vec<usize>)
    requires
        clock::is_instant(ts_bucket),
        -clock::WINDOW_LIMIT_MINUTES <= window_minutes <= clock::WINDOW_LIMIT_MINUTES,
    ensures
        out@.map_values(|i: usize| i as int) == places_within(
            history::stamps(rows@),
            ts_bucket - window_minutes * MINUTE_US,
            ts_bucket as int,
            rows@.len() as int,
        ),
{
    rows_within(rows, ts_bucket - window_minutes * MINUTE_US, ts_bucket)
}

/// How much of a window is there.
#[derive(Clone, Copy, Debug, PartialEq, Eq)]
pub struct Coverage {
    /// Minutes asked for, at least one.
    pub requested_minutes: i64,
    /// Minutes found.
    pub returned_minutes: i64,
    /// Minutes short.
    pub missing_minutes: i64,
    /// Whether no minute is short.
    pub is_ready: bool,
}

/// How much of a window of `window_minutes` is there, given the minutes found.
pub fn coverage(window_minutes: i64, returned: usize) -> (out: Coverage)
    requires
        returned <= i64::MAX,
    ensures
        out.requested_minutes == if window_minutes < 1 {
            1
        } else {
            window_minutes as int
        },
        out.returned_minutes == returned,
        out.missing_minutes == out.requested_minutes - out.returned_minutes,
        out.is_ready == (out.returned_minutes >= out.requested_minutes),
{
    let requested_minutes: i64 = if window_minutes < 1 {
        1
    } else {
        window_minutes
    };
    let returned_minutes: i64 = returned as i64;
    Coverage {
        requested_minutes,
        returned_minutes,
        missing_minutes: requested_minutes - returned_minutes,
        is_ready: returned_minutes >= requested_minutes,
    }
}

/// The closing or last price of the newest row before the last that has one, among
/// the first `hi` rows.
pub open spec fn close_before(quotes: Seq<Quote>, hi: int) -> Option<Price>
    decreases hi,
{
    if hi <= 0 {
        None
    } else {
        match (quotes[hi - 1].close, quotes[hi - 1].last) {
            (Some(price), _) => Some(price),
            (None, Some(price)) => Some(price),
            (None, None) => close_before(quotes, hi - 1),
        }
    }
}

/// The closing or last price of the newest row before the last that has one.
pub fn previous_close(quotes: &[Quote]) -> (out: Option<Price>)
    ensures
        out == close_before(quotes@, quotes@.len() - 1),
{
    let n: usize = quotes.len();
    if n == 0 {
        return None;
    }
    let mut i: usize = n - 1;
    while i > 0
        invariant
            i < n,
            n == quotes@.len(),
            close_before(quotes@, n - 1) == close_before(quotes@, i as int),
        decreases i,
    {
        i -= 1;
        let quote: Quote = quotes[i];
        if quote.close.is_some() {
            return quote.close;
        }
        if quote.last.is_some() {
            return quote.last;
        }
    }
    None
}

/// The first `n` rows before the last of `rows`, newest first: from which place, down
/// to which, they reach.
pub fn newest_before_last(rows: usize, n: usize) -> (out: (usize, usize))
    ensures
        out.0 <= out.1,
        out.1 == if rows == 0 {
            0
        } else {
            rows - 1
        },
        out.0 == if out.1 <= n {
            0
        } else {
            out.1 - n
        },
{
    if rows == 0 {
        (0, 0)
    } else if rows - 1 <= n {
        (0, rows - 1)
    } else {
        (rows - 1 - n, rows - 1)
    }
}

/// The `idx`-th window of a length before the current one: after the first instant,
/// up to the second.
pub fn earlier_window(ts_bucket: i64, window_minutes: i64, idx: i64) -> (out: (i64, i64))
    requires
        clock::is_instant(ts_bucket),
        0 <= window_minutes,
        0 <= idx,
        (idx + 1) * window_minutes <= clock::WINDOW_LIMIT_MINUTES,
    ensures
        out.1 == ts_bucket - idx * window_minutes * MINUTE_US,
        out.0 == ts_bucket - (idx + 1) * window_minutes * MINUTE_US,
{
    assert((idx + 1) * window_minutes == idx * window_minutes + window_minutes)
        by (nonlinear_arith);
    assert(0 <= idx * window_minutes) by (nonlinear_arith)
        requires
            0 <= window_minutes,
            0 <= idx,
    ;
    let shift: i64 = idx * window_minutes;
    (ts_bucket - (shift + window_minutes) * MINUTE_US, ts_bucket - shift * MINUTE_US)
}

/// The previous close is the price of the newest row before the last that has a closing or a
/// last price, the closing one where it has both; there is none where no such row has one.
pub proof fn law_previous_close(quotes: Seq<Quote>, hi: int, i: int)
    requires
        -1 <= i < hi,
        i >= 0 ==> quotes[i].close is Some || quotes[i].last is Some,
        forall|j: int|
            i < j < hi ==> (#[trigger] quotes[j]).close is None && quotes[j].last is None,
    ensures
        i >= 0 && quotes[i].close is Some ==> close_before(quotes, hi) == quotes[i].close,
        i >= 0 && quotes[i].close is None ==> close_before(quotes, hi) == quotes[i].last,
        i < 0 ==> close_before(quotes, hi) is None,
    decreases hi,
{
    if i < hi - 1 {
        law_previous_close(quotes, hi - 1, i);
    }
}

} // verus!
