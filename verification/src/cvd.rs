//! Cumulative volume delta over several windows.

use crate::clock;
use crate::clock::{ceil_to, floor_to, DAY_US, MINUTE_US, SECOND_US};
use crate::grouping;
use crate::grouping::{find, gather, Group};
use crate::history;
use crate::history::{copied, lower_bound, Stamped};
use crate::order;
use crate::order::{lower_key, upper_key, Key, KEY_INFINITY};
use crate::windows;
use crate::windows::rows_within;
use vstd::prelude::*;

verus! {

/// How many earlier bars a bar is compared with.
pub const DELTA_Z_LOOKBACK: usize = 64;

/// How many minutes of an open window are listed at most.
pub const PARTIAL_SERIES_TAIL_LIMIT: usize = 15;

/// The order key of 1e-12, below which a slope counts as flat.
pub const KEY_FLAT: i64 = 0x3D71_9799_812D_EA11;

/// The prices of one minute.
#[derive(Clone, Copy, Debug, PartialEq, Eq)]
pub struct CvdMinute {
    pub ts_bucket: i64,
    pub open: Option<Key>,
    pub high: Option<Key>,
    pub low: Option<Key>,
    pub close: Option<Key>,
    pub last: Option<Key>,
}

impl Stamped for CvdMinute {
    open spec fn at(&self) -> i64 {
        self.ts_bucket
    }

    fn ts(&self) -> (out: i64) {
        self.ts_bucket
    }
}

/// The windows, by name and minutes.
pub open spec fn spec_windows() -> Seq<(Seq<char>, i64)> {
    seq![
        ("5m"@, 5i64),
        ("15m"@, 15i64),
        ("1h"@, 60i64),
        ("4h"@, 240i64),
        ("1d"@, 1440i64),
        ("3d"@, 4320i64),
        ("7d"@, 10_080i64),
        ("30d"@, 43_200i64),
    ]
}

/// The windows, by name and minutes.
pub fn windows() -> (out: [(&'static str, i64); 8])
    ensures
        forall|i: int|
            0 <= i < 8 ==> (#[trigger] out@[i]).0@ == spec_windows()[i].0 && out@[i].1
                == spec_windows()[i].1,
{
    [
        ("5m", 5),
        ("15m", 15),
        ("1h", 60),
        ("4h", 240),
        ("1d", 1440),
        ("3d", 4320),
        ("7d", 10_080),
        ("30d", 43_200),
    ]
}

/// Whether an open window of this many minutes is reported on its own.
pub fn has_partial_window(interval_mins: i64) -> (out: bool)
    ensures
        out == (interval_mins == 15 || interval_mins == 240 || interval_mins == 1440),
{
    interval_mins == 15 || interval_mins == 240 || interval_mins == 1440
}

/// The price a minute opens at: its opening price, else its close, else its last, else
/// zero.
pub open spec fn open_mark(m: CvdMinute) -> Key {
    match (m.open, m.close, m.last) {
        (Some(k), _, _) => k,
        (None, Some(k), _) => k,
        (None, None, Some(k)) => k,
        (None, None, None) => 0,
    }
}

/// The price a minute closes at: its close, else its last, else what it opens at.
pub open spec fn close_mark(m: CvdMinute) -> Key {
    match (m.close, m.last) {
        (Some(k), _) => k,
        (None, Some(k)) => k,
        (None, None) => open_mark(m),
    }
}

/// The highest price of a minute, else what it closes at.
pub open spec fn high_mark(m: CvdMinute) -> Key {
    match m.high {
        Some(k) => k,
        None => close_mark(m),
    }
}

/// The lowest price of a minute, else what it closes at.
pub open spec fn low_mark(m: CvdMinute) -> Key {
    match m.low {
        Some(k) => k,
        None => close_mark(m),
    }
}

fn opens_at(m: &CvdMinute) -> (out: Key)
    ensures
        out == open_mark(*m),
{
    match (m.open, m.close, m.last) {
        (Some(k), _, _) => k,
        (None, Some(k), _) => k,
        (None, None, Some(k)) => k,
        (None, None, None) => 0,
    }
}

fn closes_at(m: &CvdMinute) -> (out: Key)
    ensures
        out == close_mark(*m),
{
    match (m.close, m.last) {
        (Some(k), _) => k,
        (None, Some(k)) => k,
        (None, None) => opens_at(m),
    }
}

/// A bar of minutes. Its volume and its delta are the sums over `parts`.
#[derive(Clone, Debug, PartialEq, Eq)]
pub struct CvdBar {
    /// When the bar ends.
    pub ts: i64,
    pub open: Key,
    pub high: Key,
    pub low: Key,
    pub close: Key,
    /// The places of the minutes in the bar.
    pub parts: Vec<usize>,
}

impl Stamped for CvdBar {
    open spec fn at(&self) -> i64 {
        self.ts
    }

    fn ts(&self) -> (out: i64) {
        self.ts
    }
}

/// The highest price over the first `n` parts of a bar.
pub open spec fn high_over(rows: Seq<CvdMinute>, parts: Seq<usize>, n: int) -> Key
    decreases n,
{
    if n <= 0 {
        (-KEY_INFINITY) as i64
    } else {
        order::upper(high_over(rows, parts, n - 1), high_mark(rows[parts[n - 1] as int]))
    }
}

/// The lowest price over the first `n` parts of a bar.
pub open spec fn low_over(rows: Seq<CvdMinute>, parts: Seq<usize>, n: int) -> Key
    decreases n,
{
    if n <= 0 {
        KEY_INFINITY
    } else {
        order::lower(low_over(rows, parts, n - 1), low_mark(rows[parts[n - 1] as int]))
    }
}

/// A price if it is finite, else the given one.
pub open spec fn finite_or(key: Key, other: Key) -> Key {
    if -KEY_INFINITY < key < KEY_INFINITY {
        key
    } else {
        other
    }
}

/// Whether a bar that ends at `ts` is made of the given minutes.
pub open spec fn is_bar_of(bar: CvdBar, ts: i64, rows: Seq<CvdMinute>, parts: Seq<usize>) -> bool {
    &&& bar.ts == ts
    &&& bar.parts@ == parts
    &&& bar.open == open_mark(rows[parts[0] as int])
    &&& bar.close == close_mark(rows[parts.last() as int])
    &&& bar.high == finite_or(high_over(rows, parts, parts.len() as int), bar.close)
    &&& bar.low == finite_or(low_over(rows, parts, parts.len() as int), bar.close)
}

/// The bar of some minutes.
fn bar_of(ts: i64, rows: &[CvdMinute], parts: Vec<usize>) -> (out: CvdBar)
    requires
        parts@.len() > 0,
        forall|p: int| 0 <= p < parts@.len() ==> (#[trigger] parts@[p]) < rows@.len(),
    ensures
        is_bar_of(out, ts, rows@, parts@),
{
    let n: usize = parts.len();
    let mut high: Key = -KEY_INFINITY;
    let mut low: Key = KEY_INFINITY;
    let mut p: usize = 0;
    while p < n
        invariant
            p <= n,
            n == parts@.len(),
            forall|q: int| 0 <= q < parts@.len() ==> (#[trigger] parts@[q]) < rows@.len(),
            high == high_over(rows@, parts@, p as int),
            low == low_over(rows@, parts@, p as int),
        decreases n - p,
    {
        let m: CvdMinute = rows[parts[p]];
        let close: Key = closes_at(&m);
        high =
        upper_key(
            high,
            match m.high {
                Some(k) => k,
                None => close,
            },
        );
        low =
        lower_key(
            low,
            match m.low {
                Some(k) => k,
                None => close,
            },
        );
        p += 1;
    }
    let open: Key = opens_at(&rows[parts[0]]);
    let close: Key = closes_at(&rows[parts[n - 1]]);
    CvdBar {
        ts,
        open,
        high: if -KEY_INFINITY < high && high < KEY_INFINITY {
            high
        } else {
            close
        },
        low: if -KEY_INFINITY < low && low < KEY_INFINITY {
            low
        } else {
            close
        },
        close,
        parts,
    }
}

/// The end of the bar that an instant falls in, to the second: the instant itself where
/// a bar ends then.
pub open spec fn bar_end(ts: int, interval_mins: int) -> int {
    clock::ceil_spec(clock::floor_spec(ts, SECOND_US as int), interval_mins * MINUTE_US)
}

/// The end of the bar that an instant falls in.
pub fn align_bar_end(ts: i64, interval_mins: i64) -> (out: i64)
    requires
        -clock::INSTANT_LIMIT_US + SECOND_US <= ts <= clock::INSTANT_LIMIT_US,
        0 < interval_mins <= clock::WINDOW_LIMIT_MINUTES,
    ensures
        out == bar_end(ts as int, interval_mins as int),
        ts - SECOND_US < out,
        out < ts + interval_mins * MINUTE_US,
{
    ceil_to(floor_to(ts, SECOND_US), interval_mins * MINUTE_US)
}

/// A minute boundary is the end of its own bar only where a bar ends; no bar ends before
/// the minutes in it do.
pub proof fn law_bar_end(ts: int, interval_mins: int)
    requires
        ts % (SECOND_US as int) == 0,
        interval_mins > 0,
    ensures
        bar_end(ts, interval_mins) >= ts,
        bar_end(ts, interval_mins) < ts + interval_mins * MINUTE_US,
        bar_end(ts, interval_mins) % (interval_mins * MINUTE_US) == 0,
        bar_end(ts, interval_mins) == ts <==> ts % (interval_mins * MINUTE_US) == 0,
{
    let step = interval_mins * MINUTE_US;
    assert(step > 0) by (nonlinear_arith)
        requires
            interval_mins > 0,
            step == interval_mins * MINUTE_US,
    ;
    vstd::arithmetic::div_mod::lemma_fundamental_div_mod(ts, SECOND_US as int);
    vstd::arithmetic::mul::lemma_mul_is_commutative(SECOND_US as int, ts / (SECOND_US as int));
    assert(clock::floor_spec(ts, SECOND_US as int) == ts);
    clock::law_floor(ts, step);
    vstd::arithmetic::div_mod::lemma_fundamental_div_mod(ts, step);
    vstd::arithmetic::mul::lemma_mul_is_commutative(step, ts / step);
    let floor = clock::floor_spec(ts, step);
    let q = ts / step;
    assert((q + 1) * step == q * step + step) by (nonlinear_arith);
    vstd::arithmetic::div_mod::lemma_fundamental_div_mod_converse((q + 1) * step, step, q + 1, 0);
}

/// The bar that a minute counts for, by its end; none for a minute after `ts_bucket` or
/// whose bar is not over by the end of that minute.
pub open spec fn bar_key(ts: i64, ts_bucket: i64, interval_mins: i64) -> Option<i64> {
    let end = bar_end(ts + MINUTE_US, interval_mins as int);
    if ts > ts_bucket || end > ts_bucket + MINUTE_US {
        None
    } else {
        Some(end as i64)
    }
}

/// The bars that the minutes of a history count for.
pub open spec fn bar_keys(rows: Seq<CvdMinute>, ts_bucket: i64, interval_mins: i64) -> Seq<
    Option<i64>,
> {
    Seq::new(rows.len(), |i: int| bar_key(rows[i].ts_bucket, ts_bucket, interval_mins))
}

/// Whether `bars` are the bars of a history that are over by the end of the minute
/// `ts_bucket`, in the order of their ends: one for each end that a minute counts for.
pub open spec fn are_completed_bars(
    bars: Seq<CvdBar>,
    rows: Seq<CvdMinute>,
    ts_bucket: i64,
    interval_mins: i64,
) -> bool {
    let keys = bar_keys(rows, ts_bucket, interval_mins);
    &&& forall|a: int, b: int|
        0 <= a < b < bars.len() ==> (#[trigger] bars[a]).ts < (#[trigger] bars[b]).ts
    &&& forall|a: int|
        0 <= a < bars.len() ==> is_bar_of(
            #[trigger] bars[a],
            bars[a].ts,
            rows,
            grouping::places_of(keys, bars[a].ts, rows.len() as int),
        )
    &&& forall|a: int| 0 <= a < bars.len() ==> (#[trigger] bars[a]).parts@.len() > 0
    &&& forall|i: int|
        0 <= i < rows.len() && (#[trigger] keys[i]) is Some ==> ends_at(bars, keys[i]->0)
}

/// Whether one of the bars ends at `ts`.
pub open spec fn ends_at(bars: Seq<CvdBar>, ts: i64) -> bool {
    exists|b: int| 0 <= b < bars.len() && (#[trigger] bars[b]).ts == ts
}

/// The bars of a history that are over by the end of the minute `ts_bucket`.
pub fn aggregate_bars(history: &[CvdMinute], ts_bucket: i64, interval_mins: i64) -> (out: Vec<
    CvdBar,
>)
    requires
        clock::is_instant(ts_bucket),
        forall|i: int|
            0 <= i < history@.len() ==> -clock::INSTANT_LIMIT_US <= (
            #[trigger] history@[i]).ts_bucket <= clock::INSTANT_LIMIT_US - MINUTE_US,
        0 < interval_mins <= clock::WINDOW_LIMIT_MINUTES,
    ensures
        are_completed_bars(out@, history@, ts_bucket, interval_mins),
{
    let cutoff: i64 = ts_bucket + MINUTE_US;
    let n: usize = history.len();
    let mut keys: Vec<Option<i64>> = Vec::new();
    let mut i: usize = 0;
    while i < n
        invariant
            i <= n,
            n == history@.len(),
            cutoff == ts_bucket + MINUTE_US,
            forall|j: int|
                0 <= j < history@.len() ==> -clock::INSTANT_LIMIT_US <= (
                #[trigger] history@[j]).ts_bucket <= clock::INSTANT_LIMIT_US - MINUTE_US,
            0 < interval_mins <= clock::WINDOW_LIMIT_MINUTES,
            keys@ =~= bar_keys(history@, ts_bucket, interval_mins).take(i as int),
        decreases n - i,
    {
        let ts: i64 = history[i].ts_bucket;
        let end: i64 = align_bar_end(ts + MINUTE_US, interval_mins);
        if ts > ts_bucket || end > cutoff {
            keys.push(None);
        } else {
            keys.push(Some(end));
        }
        i += 1;
    }
    let ghost all = bar_keys(history@, ts_bucket, interval_mins);
    assert(keys@ =~= all);
    let groups: Vec<Group> = gather(&keys);
    let ghost whole = groups@;
    let mut out: Vec<CvdBar> = Vec::new();
    let mut g: usize = 0;
    while g < groups.len()
        invariant
            n == history@.len(),
            all == bar_keys(history@, ts_bucket, interval_mins),
            whole == groups@,
            grouping::are_groups(whole, all, n as int),
            g <= whole.len(),
            out@.len() == g,
            forall|b: int|
                0 <= b < out@.len() ==> (#[trigger] out@[b]).ts == whole[b].key && is_bar_of(
                    out@[b],
                    out@[b].ts,
                    history@,
                    whole[b].places@,
                ),
        decreases whole.len() - g,
    {
        proof {
            grouping::law_places_of(all, whole[g as int].key, n as int);
            assert(whole[g as int].places@.len() > 0);
        }
        out.push(bar_of(groups[g].key, history, copied(&groups[g].places)));
        g += 1;
    }
    proof {
        assert forall|a: int, b: int| 0 <= a < b < out@.len() implies (#[trigger] out@[a]).ts < (
        #[trigger] out@[b]).ts by {
            assert(whole[a].key < whole[b].key);
        }
        assert forall|a: int| 0 <= a < out@.len() implies is_bar_of(
            #[trigger] out@[a],
            out@[a].ts,
            history@,
            grouping::places_of(all, out@[a].ts, n as int),
        ) && out@[a].parts@.len() > 0 by {
            assert(whole[a].places@ == places_of_key(all, whole[a].key));
            assert(whole[a].places@.len() > 0);
        }
        assert forall|i: int| 0 <= i < n && (#[trigger] all[i]) is Some implies ends_at(
            out@,
            all[i]->0,
        ) by {
            assert(grouping::has_key(whole, all[i]->0));
            let g = choose|g: int| 0 <= g < whole.len() && (#[trigger] whole[g]).key == all[i]->0;
            assert(out@[g].ts == all[i]->0);
        }
    }
    out
}

spec fn places_of_key(keys: Seq<Option<i64>>, key: i64) -> Seq<usize> {
    grouping::places_of(keys, key, keys.len() as int)
}

/// No bar lies ahead of the minute it is asked for: every bar is over by its end, and
/// every minute in it is one of the history's, no later than `ts_bucket`.
pub proof fn law_no_bar_lies_ahead(
    bars: Seq<CvdBar>,
    rows: Seq<CvdMinute>,
    ts_bucket: i64,
    interval_mins: i64,
    b: int,
    p: int,
)
    requires
        are_completed_bars(bars, rows, ts_bucket, interval_mins),
        rows.len() <= usize::MAX,
        clock::is_instant(ts_bucket),
        0 < interval_mins <= clock::WINDOW_LIMIT_MINUTES,
        forall|i: int|
            0 <= i < rows.len() ==> -clock::INSTANT_LIMIT_US <= (#[trigger] rows[i]).ts_bucket
                <= clock::INSTANT_LIMIT_US - MINUTE_US,
        0 <= b < bars.len(),
        0 <= p < bars[b].parts@.len(),
    ensures
        bars[b].ts <= ts_bucket + MINUTE_US,
        bars[b].parts@[p] < rows.len(),
        rows[bars[b].parts@[p] as int].ts_bucket <= ts_bucket,
        bars[b].ts == bar_end(
            rows[bars[b].parts@[p] as int].ts_bucket + MINUTE_US,
            interval_mins as int,
        ),
{
    let keys = bar_keys(rows, ts_bucket, interval_mins);
    grouping::law_places_of(keys, bars[b].ts, rows.len() as int);
    let i = bars[b].parts@[p] as int;
    assert(bars[b].parts@ == grouping::places_of(keys, bars[b].ts, rows.len() as int));
    assert(keys[i] == Some(bars[b].ts));
    let ts = rows[i].ts_bucket + MINUTE_US;
    let step = interval_mins * MINUTE_US;
    assert(0 < step <= 822_000_000_000_000_000) by (nonlinear_arith)
        requires
            0 < interval_mins <= clock::WINDOW_LIMIT_MINUTES,
            step == interval_mins * MINUTE_US,
    ;
    clock::law_floor(ts, SECOND_US as int);
    let sec = clock::floor_spec(ts, SECOND_US as int);
    clock::law_floor(sec, step);
    vstd::arithmetic::div_mod::lemma_fundamental_div_mod(sec, step);
}

/// What the bars of a history are: each ends on a multiple of the interval, no later than
/// the minute `ts_bucket` does, in order; and each holds exactly those minutes, none after
/// `ts_bucket`, whose interval ends where it does: of whole minutes, those from an interval
/// before its end on. A window of one interval that ends with a bar holds that bar alone.
pub proof fn law_completed_bars(
    bars: Seq<CvdBar>,
    rows: Seq<CvdMinute>,
    ts_bucket: i64,
    interval_mins: i64,
)
    requires
        are_completed_bars(bars, rows, ts_bucket, interval_mins),
        rows.len() <= usize::MAX,
        clock::is_instant(ts_bucket),
        0 < interval_mins <= clock::WINDOW_LIMIT_MINUTES,
        forall|i: int|
            0 <= i < rows.len() ==> -clock::INSTANT_LIMIT_US <= (#[trigger] rows[i]).ts_bucket
                <= clock::INSTANT_LIMIT_US - MINUTE_US,
    ensures
        forall|b: int|
            0 <= b < bars.len() ==> (#[trigger] bars[b]).ts <= ts_bucket + MINUTE_US
                && bars[b].ts as int % (interval_mins * MINUTE_US) == 0,
        forall|a: int, b: int|
            0 <= a < b < bars.len() ==> (#[trigger] bars[a]).ts < (#[trigger] bars[b]).ts,
        forall|b: int, i: int|
            #![trigger bars[b], rows[i]]
            0 <= b < bars.len() && 0 <= i < rows.len() ==> (bars[b].parts@.contains(i as usize)
                <==> rows[i].ts_bucket <= ts_bucket && bar_end(
                rows[i].ts_bucket + MINUTE_US,
                interval_mins as int,
            ) == bars[b].ts),
        forall|b: int, i: int|
            #![trigger bars[b], rows[i]]
            0 <= b < bars.len() && 0 <= i < rows.len() && rows[i].ts_bucket as int % (
            MINUTE_US as int) == 0 ==> (bars[b].parts@.contains(i as usize) <==> rows[i].ts_bucket
                <= ts_bucket && bars[b].ts - interval_mins * MINUTE_US <= rows[i].ts_bucket
                < bars[b].ts),
        forall|i: int|
            0 <= i < rows.len() && (#[trigger] rows[i]).ts_bucket <= ts_bucket && bar_end(
                rows[i].ts_bucket + MINUTE_US,
                interval_mins as int,
            ) <= ts_bucket + MINUTE_US ==> ends_at(
                bars,
                bar_end(rows[i].ts_bucket + MINUTE_US, interval_mins as int) as i64,
            ),
        forall|b: int, first: int|
            0 <= b < bars.len() && #[trigger] starts_window(
                bars,
                b,
                first,
                interval_mins * MINUTE_US,
            ) ==> first == b,
{
    let keys = bar_keys(rows, ts_bucket, interval_mins);
    assert forall|b: int| 0 <= b < bars.len() implies (#[trigger] bars[b]).ts <= ts_bucket
        + MINUTE_US && bars[b].ts as int % (interval_mins * MINUTE_US) == 0 by {
        law_no_bar_lies_ahead(bars, rows, ts_bucket, interval_mins, b, 0);
        let i = bars[b].parts@[0] as int;
        let sec = clock::floor_spec(rows[i].ts_bucket + MINUTE_US, SECOND_US as int);
        lemma_ceil_is_multiple(sec, interval_mins * MINUTE_US);
    }
    assert forall|b: int, i: int|
        #![trigger bars[b], rows[i]]
        0 <= b < bars.len() && 0 <= i < rows.len() implies (bars[b].parts@.contains(i as usize)
        <==> rows[i].ts_bucket <= ts_bucket && bar_end(
        rows[i].ts_bucket + MINUTE_US,
        interval_mins as int,
    ) == bars[b].ts) by {
        grouping::law_places_of(keys, bars[b].ts, rows.len() as int);
        lemma_bar_end_fits(rows[i].ts_bucket, interval_mins);
        if bars[b].parts@.contains(i as usize) {
            let p = choose|p: int| 0 <= p < bars[b].parts@.len() && bars[b].parts@[p] == i as usize;
            law_no_bar_lies_ahead(bars, rows, ts_bucket, interval_mins, b, p);
        } else if rows[i].ts_bucket <= ts_bucket && bar_end(
            rows[i].ts_bucket + MINUTE_US,
            interval_mins as int,
        ) == bars[b].ts {
            assert(keys[i] == Some(bars[b].ts));
        }
    }
    assert forall|b: int, i: int|
        #![trigger bars[b], rows[i]]
        0 <= b < bars.len() && 0 <= i < rows.len() && rows[i].ts_bucket as int % (
        MINUTE_US as int) == 0 implies (bars[b].parts@.contains(i as usize) <==> rows[i].ts_bucket
        <= ts_bucket && bars[b].ts - interval_mins * MINUTE_US <= rows[i].ts_bucket < bars[b].ts) by {
        lemma_in_interval(rows[i].ts_bucket as int, bars[b].ts as int, interval_mins as int);
    }
    assert forall|b: int, first: int|
        0 <= b < bars.len() && #[trigger] starts_window(
            bars,
            b,
            first,
            interval_mins * MINUTE_US,
        ) implies first == b by {
        if first < b {
            let step = interval_mins * MINUTE_US;
            assert(bars[first].ts < bars[b].ts);
            lemma_multiples_apart(bars[first].ts as int, bars[b].ts as int, step);
        }
    }
    assert forall|i: int|
        0 <= i < rows.len() && (#[trigger] rows[i]).ts_bucket <= ts_bucket && bar_end(
            rows[i].ts_bucket + MINUTE_US,
            interval_mins as int,
        ) <= ts_bucket + MINUTE_US implies ends_at(
        bars,
        bar_end(rows[i].ts_bucket + MINUTE_US, interval_mins as int) as i64,
    ) by {
        assert(keys[i] is Some);
    }
}

/// A whole minute counts for the interval that holds it.
proof fn lemma_in_interval(ts: int, end: int, interval_mins: int)
    requires
        ts % (MINUTE_US as int) == 0,
        interval_mins > 0,
        end % (interval_mins * MINUTE_US) == 0,
    ensures
        bar_end(ts + MINUTE_US, interval_mins) == end <==> end - interval_mins * MINUTE_US <= ts
            < end,
{
    let step = interval_mins * MINUTE_US;
    let e = ts + MINUTE_US;
    let be = bar_end(e, interval_mins);
    assert(e <= be < e + step && be % step == 0) by {
        assert(e % (SECOND_US as int) == 0);
        law_bar_end(e, interval_mins);
    }
    let q = end / step;
    let whole = q * interval_mins;
    assert(end == whole * MINUTE_US) by {
        vstd::arithmetic::div_mod::lemma_fundamental_div_mod(end, step);
        assert(step * q == (q * interval_mins) * MINUTE_US) by (nonlinear_arith)
            requires
                step == interval_mins * MINUTE_US,
        ;
    }
    lemma_next_minute(ts, whole);
    lemma_next_minute(ts, whole - interval_mins);
    assert(step > 0);
    if be < end {
        lemma_multiples_apart(be, end, step);
    }
    if end < be {
        lemma_multiples_apart(end, be, step);
    }
}

/// A whole minute that another is after is a minute before it or more.
proof fn lemma_next_minute(ts: int, whole: int)
    requires
        ts % (MINUTE_US as int) == 0,
    ensures
        ts < whole * MINUTE_US ==> ts + MINUTE_US <= whole * MINUTE_US,
        ts >= whole * MINUTE_US <==> ts + MINUTE_US > whole * MINUTE_US,
{
    let m = ts / (MINUTE_US as int);
    assert(ts == m * MINUTE_US);
}

/// Two multiples of a step lie at least a step apart.
proof fn lemma_multiples_apart(a: int, b: int, step: int)
    requires
        step > 0,
        a % step == 0,
        b % step == 0,
        a < b,
    ensures
        a + step <= b,
{
    vstd::arithmetic::div_mod::lemma_fundamental_div_mod(a, step);
    vstd::arithmetic::div_mod::lemma_fundamental_div_mod(b, step);
    let p = a / step;
    let q = b / step;
    assert(a + step <= b) by (nonlinear_arith)
        requires
            a == step * p,
            b == step * q,
            a < b,
            step > 0,
    ;
}

proof fn lemma_ceil_is_multiple(ts: int, step: int)
    requires
        step > 0,
    ensures
        clock::ceil_spec(ts, step) % step == 0,
{
    let q = ts / step;
    vstd::arithmetic::div_mod::lemma_fundamental_div_mod(ts, step);
    vstd::arithmetic::mul::lemma_mul_is_commutative(step, q);
    vstd::arithmetic::div_mod::lemma_fundamental_div_mod_converse(q * step, step, q, 0);
    assert((q + 1) * step == q * step + step) by (nonlinear_arith);
    vstd::arithmetic::div_mod::lemma_fundamental_div_mod_converse((q + 1) * step, step, q + 1, 0);
}

/// The end of a bar is an instant that fits.
proof fn lemma_bar_end_fits(ts: i64, interval_mins: i64)
    requires
        0 < interval_mins <= clock::WINDOW_LIMIT_MINUTES,
        -clock::INSTANT_LIMIT_US <= ts <= clock::INSTANT_LIMIT_US - MINUTE_US,
    ensures
        i64::MIN <= bar_end(ts + MINUTE_US, interval_mins as int) <= i64::MAX,
{
    let step = interval_mins * MINUTE_US;
    assert(0 < step <= 822_000_000_000_000_000) by (nonlinear_arith)
        requires
            0 < interval_mins <= clock::WINDOW_LIMIT_MINUTES,
            step == interval_mins * MINUTE_US,
    ;
    clock::law_floor(ts + MINUTE_US, SECOND_US as int);
    clock::law_floor(clock::floor_spec(ts + MINUTE_US, SECOND_US as int), step);
}

/// For each bar the first bar of its window: the bars of a window end within the last
/// `interval_mins` minutes.
pub fn window_starts(bars: &[CvdBar], interval_mins: i64) -> (out: Vec<usize>)
    requires
        forall|a: int, b: int|
            0 <= a < b < bars@.len() ==> (#[trigger] bars@[a]).ts < (#[trigger] bars@[b]).ts,
        forall|a: int|
            0 <= a < bars@.len() ==> -clock::INSTANT_LIMIT_US <= (#[trigger] bars@[a]).ts
                <= 9_222_000_000_000_000_000,
        0 < interval_mins <= clock::WINDOW_LIMIT_MINUTES,
    ensures
        out@.len() == bars@.len(),
        forall|b: int|
            0 <= b < out@.len() ==> starts_window(
                bars@,
                b,
                #[trigger] out@[b] as int,
                interval_mins * MINUTE_US,
            ),
{
    let span: i64 = interval_mins * MINUTE_US;
    let n: usize = bars.len();
    let mut out: Vec<usize> = Vec::new();
    let mut first: usize = 0;
    let mut b: usize = 0;
    while b < n
        invariant
            b <= n,
            n == bars@.len(),
            first <= b,
            forall|x: int, y: int|
                0 <= x < y < bars@.len() ==> (#[trigger] bars@[x]).ts < (#[trigger] bars@[y]).ts,
            forall|x: int|
                0 <= x < bars@.len() ==> -clock::INSTANT_LIMIT_US <= (#[trigger] bars@[x]).ts
                    <= 9_222_000_000_000_000_000,
            0 < span <= 822_000_000_000_000_000,
            out@.len() == b,
            b > 0 ==> starts_window(bars@, b - 1, first as int, span as int),
            b == 0 ==> first == 0,
            forall|k: int|
                0 <= k < out@.len() ==> starts_window(
                    bars@,
                    k,
                    #[trigger] out@[k] as int,
                    span as int,
                ),
        decreases n - b,
    {
        let bound: i64 = bars[b].ts - span;
        proof {
            if b > 0 {
                assert(bars@[b - 1].ts < bars@[b as int].ts);
            }
        }
        while bars[first].ts <= bound
            invariant
                b < n,
                n == bars@.len(),
                first <= b,
                bound == bars@[b as int].ts - span,
                0 < span,
                forall|a: int| 0 <= a < first ==> (#[trigger] bars@[a]).ts <= bound,
            decreases b - first,
        {
            assert(first < b);
            first += 1;
        }
        assert(starts_window(bars@, b as int, first as int, span as int));
        out.push(first);
        b += 1;
    }
    out
}

/// Whether the window of bar `b` starts with bar `first`.
pub open spec fn starts_window(bars: Seq<CvdBar>, b: int, first: int, span: int) -> bool {
    &&& 0 <= first <= b
    &&& bars[first].ts > bars[b].ts - span
    &&& forall|a: int| 0 <= a < first ==> (#[trigger] bars[a]).ts <= bars[b].ts - span
}

/// The bar of the minutes from `window_start` on and before `window_end`; none where
/// there is no such minute.
pub fn aggregate_recent_window(history: &[CvdMinute], window_start: i64, window_end: i64) -> (out:
    Option<CvdBar>)
    requires
        window_start > i64::MIN,
        window_end > i64::MIN,
    ensures
        ({
            let places = window_places(history@, window_start, window_end);
            match out {
                None => places.len() == 0,
                Some(bar) => places.len() > 0 && is_bar_of(bar, window_end, history@, places),
            }
        }),
{
    let parts: Vec<usize> = rows_within(history, window_start - 1, window_end - 1);
    proof {
        windows::law_places_within(
            history::stamps(history@),
            window_start - 1,
            window_end - 1,
            history@.len() as int,
        );
        let found = windows::places_within(
            history::stamps(history@),
            window_start - 1,
            window_end - 1,
            history@.len() as int,
        );
        assert(parts@ =~= window_places(history@, window_start, window_end)) by {
            assert forall|p: int| 0 <= p < parts@.len() implies parts@[p] as int == found[p] by {
                assert(parts@.map_values(|i: usize| i as int)[p] == found[p]);
            }
        }
        assert forall|p: int| 0 <= p < parts@.len() implies (#[trigger] parts@[p])
            < history@.len() by {
            assert(parts@.map_values(|i: usize| i as int)[p] == found[p]);
        }
    }
    if parts.len() == 0 {
        None
    } else {
        Some(bar_of(window_end, history, parts))
    }
}

/// The places of the minutes from `window_start` on and before `window_end`.
pub open spec fn window_places(rows: Seq<CvdMinute>, window_start: i64, window_end: i64) -> Seq<
    usize,
> {
    windows::places_within(
        history::stamps(rows),
        window_start - 1,
        window_end - 1,
        rows.len() as int,
    ).map_values(|i: int| i as usize)
}

/// The last full day that starts no later than an instant, to the second.
pub open spec fn day_floor(ts: int) -> int {
    clock::floor_spec(clock::floor_spec(ts, SECOND_US as int), DAY_US as int)
}

/// The start of the day of an instant.
pub fn floor_day_boundary(ts: i64) -> (out: i64)
    requires
        -clock::INSTANT_LIMIT_US + SECOND_US <= ts <= clock::INSTANT_LIMIT_US,
    ensures
        out == day_floor(ts as int),
        out <= ts < out + DAY_US + SECOND_US,
{
    floor_to(floor_to(ts, SECOND_US), DAY_US)
}

/// The start of the first day that begins no earlier than an instant.
pub open spec fn day_ceil(ts: int) -> int {
    if day_floor(ts) == ts {
        ts
    } else {
        day_floor(ts) + DAY_US
    }
}

/// The start of the first day that begins no earlier than an instant.
pub fn ceil_day_boundary(ts: i64) -> (out: i64)
    requires
        -clock::INSTANT_LIMIT_US + SECOND_US <= ts <= clock::INSTANT_LIMIT_US,
    ensures
        out == day_ceil(ts as int),
        ts - SECOND_US < out < ts + DAY_US + SECOND_US,
{
    let floor: i64 = floor_day_boundary(ts);
    if floor == ts {
        ts
    } else {
        floor + DAY_US
    }
}

/// One point of a compact series: one minute at the edges of a window, or one whole day.
/// Its deltas are the sums over the minutes of each market.
#[derive(Clone, Debug, PartialEq, Eq)]
pub struct CompactPoint {
    /// When the minute or the day ends.
    pub ts: i64,
    pub is_day: bool,
    pub parts_fut: Vec<usize>,
    pub parts_spot: Vec<usize>,
    pub observed_minutes_fut: usize,
    pub observed_minutes_spot: usize,
}

/// A compact series with its points counted.
#[derive(Clone, Debug, PartialEq, Eq)]
pub struct CompactSeries {
    pub points: Vec<CompactPoint>,
    pub minute_points: usize,
    pub day_points: usize,
}

/// The instants from `from` on and before `to`, `step` apart.
pub open spec fn steps(from: int, to: int, step: int) -> Seq<int>
    decreases
        if from < to {
            to - from
        } else {
            0
        },
{
    if from >= to || step <= 0 {
        Seq::empty()
    } else {
        seq![from] + steps(from + step, to, step)
    }
}

/// How many instants there are, and which.
pub proof fn lemma_steps(from: int, to: int, step: int)
    requires
        step > 0,
    ensures
        from >= to ==> steps(from, to, step).len() == 0,
        from < to ==> (steps(from, to, step).len() - 1) * step < to - from <= steps(
            from,
            to,
            step,
        ).len() * step,
        forall|k: int|
            0 <= k < steps(from, to, step).len() ==> #[trigger] steps(from, to, step)[k] == from + k
                * step,
    decreases
        if from < to {
            to - from
        } else {
            0
        },
{
    if from < to {
        lemma_steps(from + step, to, step);
        let rest = steps(from + step, to, step);
        let all = steps(from, to, step);
        assert(all.len() == rest.len() + 1);
        assert(rest.len() * step + step == all.len() * step) by (nonlinear_arith)
            requires
                all.len() == rest.len() + 1,
        ;
        assert((rest.len() - 1) * step == rest.len() * step - step) by (nonlinear_arith);
        assert((all.len() - 1) * step == rest.len() * step) by (nonlinear_arith)
            requires
                all.len() == rest.len() + 1,
        ;
        if from + step >= to {
            assert(rest.len() * step == 0) by (nonlinear_arith)
                requires
                    rest.len() == 0,
            ;
        }
        assert forall|k: int| 0 <= k < all.len() implies #[trigger] all[k] == from + k * step by {
            if k > 0 {
                assert(all[k] == rest[k - 1]);
                assert((from + step) + (k - 1) * step == from + k * step) by (nonlinear_arith);
            } else {
                assert(0 * step == 0) by (nonlinear_arith);
            }
        }
    }
}

/// The second that a minute of the window stands in; none for a minute outside it.
pub open spec fn second_key(ts: i64, window_start: i64, window_end: i64) -> Option<i64> {
    if window_start <= ts < window_end {
        Some(clock::floor_spec(ts as int, SECOND_US as int) as i64)
    } else {
        None
    }
}

/// The day that a minute of the window stands in; none for a minute outside it.
pub open spec fn day_key(ts: i64, window_start: i64, window_end: i64) -> Option<i64> {
    if window_start <= ts < window_end {
        Some(day_floor(ts as int) as i64)
    } else {
        None
    }
}

/// The seconds that the minutes of a window stand in.
pub open spec fn second_keys(rows: Seq<CvdMinute>, window_start: i64, window_end: i64) -> Seq<
    Option<i64>,
> {
    Seq::new(rows.len(), |i: int| second_key(rows[i].ts_bucket, window_start, window_end))
}

/// The days that the minutes of a window stand in.
pub open spec fn day_keys(rows: Seq<CvdMinute>, window_start: i64, window_end: i64) -> Seq<
    Option<i64>,
> {
    Seq::new(rows.len(), |i: int| day_key(rows[i].ts_bucket, window_start, window_end))
}

/// The minutes of a window in the second of `at`.
pub open spec fn minute_parts(
    rows: Seq<CvdMinute>,
    window_start: i64,
    window_end: i64,
    at: int,
) -> Seq<usize> {
    grouping::places_of(
        second_keys(rows, window_start, window_end),
        clock::floor_spec(at, SECOND_US as int) as i64,
        rows.len() as int,
    )
}

/// The minutes of a window in the day that starts at `day`.
pub open spec fn day_parts(
    rows: Seq<CvdMinute>,
    window_start: i64,
    window_end: i64,
    day: int,
) -> Seq<usize> {
    grouping::places_of(
        day_keys(rows, window_start, window_end),
        day as i64,
        rows.len() as int,
    )
}

/// Whether a point stands for the minute that starts at `at`.
pub open spec fn is_minute_point(
    p: CompactPoint,
    fut: Seq<CvdMinute>,
    spot: Seq<CvdMinute>,
    window_start: i64,
    window_end: i64,
    at: int,
) -> bool {
    &&& p.ts == at + MINUTE_US
    &&& !p.is_day
    &&& p.parts_fut@ == minute_parts(fut, window_start, window_end, at)
    &&& p.parts_spot@ == minute_parts(spot, window_start, window_end, at)
    &&& p.observed_minutes_fut == if p.parts_fut@.len() > 0 {
        1int
    } else {
        0
    }
    &&& p.observed_minutes_spot == if p.parts_spot@.len() > 0 {
        1int
    } else {
        0
    }
}

/// Whether a point stands for the day that starts at `at`.
pub open spec fn is_day_point(
    p: CompactPoint,
    fut: Seq<CvdMinute>,
    spot: Seq<CvdMinute>,
    window_start: i64,
    window_end: i64,
    at: int,
) -> bool {
    &&& p.ts == at + DAY_US
    &&& p.is_day
    &&& p.parts_fut@ == day_parts(fut, window_start, window_end, at)
    &&& p.parts_spot@ == day_parts(spot, window_start, window_end, at)
    &&& p.observed_minutes_fut == p.parts_fut@.len()
    &&& p.observed_minutes_spot == p.parts_spot@.len()
}

/// Where the compact series of a window changes from minutes to days and back.
pub struct Layout {
    pub head: Seq<int>,
    pub days: Seq<int>,
    pub tail: Seq<int>,
}

/// The instants that the points of a compact series start at: the minutes up to the first
/// full day, the full days, and the minutes from there on; only minutes where no day is
/// full.
pub open spec fn layout(window_start: i64, window_end: i64) -> Layout {
    let first = day_ceil(window_start as int);
    let last = day_floor(window_end as int);
    if window_start >= window_end {
        Layout { head: Seq::empty(), days: Seq::empty(), tail: Seq::empty() }
    } else if first >= last {
        Layout {
            head: steps(window_start as int, window_end as int, MINUTE_US as int),
            days: Seq::empty(),
            tail: Seq::empty(),
        }
    } else {
        Layout {
            head: steps(
                window_start as int,
                if first < window_end {
                    first
                } else {
                    window_end as int
                },
                MINUTE_US as int,
            ),
            days: steps(first, last, DAY_US as int),
            tail: steps(
                if last > window_start {
                    last
                } else {
                    window_start as int
                },
                window_end as int,
                MINUTE_US as int,
            ),
        }
    }
}

/// Whether a series is the compact one of a window.
pub open spec fn is_compact_series(
    series: CompactSeries,
    fut: Seq<CvdMinute>,
    spot: Seq<CvdMinute>,
    window_start: i64,
    window_end: i64,
) -> bool {
    let l = layout(window_start, window_end);
    let h = l.head.len() as int;
    let d = l.days.len() as int;
    &&& series.points@.len() == h + d + l.tail.len()
    &&& series.minute_points == h + l.tail.len()
    &&& series.day_points == d
    &&& forall|i: int|
        0 <= i < h ==> is_minute_point(
            #[trigger] series.points@[i],
            fut,
            spot,
            window_start,
            window_end,
            l.head[i],
        )
    &&& forall|i: int|
        h <= i < h + d ==> is_day_point(
            #[trigger] series.points@[i],
            fut,
            spot,
            window_start,
            window_end,
            l.days[i - h],
        )
    &&& forall|i: int|
        h + d <= i < series.points@.len() ==> is_minute_point(
            #[trigger] series.points@[i],
            fut,
            spot,
            window_start,
            window_end,
            l.tail[i - h - d],
        )
}

/// The minutes of a window gathered by second and by day.
struct Digest {
    by_second: Vec<Group>,
    by_day: Vec<Group>,
}

impl Digest {
    spec fn is_of(&self, rows: Seq<CvdMinute>, window_start: i64, window_end: i64) -> bool {
        &&& grouping::are_groups(
            self.by_second@,
            second_keys(rows, window_start, window_end),
            rows.len() as int,
        )
        &&& grouping::are_groups(
            self.by_day@,
            day_keys(rows, window_start, window_end),
            rows.len() as int,
        )
        &&& rows.len() <= usize::MAX
    }
}

fn build_window_delta_digest(rows: &[CvdMinute], window_start: i64, window_end: i64) -> (out:
    Digest)
    requires
        forall|i: int|
            0 <= i < rows@.len() ==> -clock::INSTANT_LIMIT_US + SECOND_US <= (
            #[trigger] rows@[i]).ts_bucket <= clock::INSTANT_LIMIT_US,
    ensures
        out.is_of(rows@, window_start, window_end),
{
    let n: usize = rows.len();
    let mut seconds: Vec<Option<i64>> = Vec::new();
    let mut days: Vec<Option<i64>> = Vec::new();
    let mut i: usize = 0;
    while i < n
        invariant
            i <= n,
            n == rows@.len(),
            forall|j: int|
                0 <= j < rows@.len() ==> -clock::INSTANT_LIMIT_US + SECOND_US <= (
                #[trigger] rows@[j]).ts_bucket <= clock::INSTANT_LIMIT_US,
            seconds@ =~= second_keys(rows@, window_start, window_end).take(i as int),
            days@ =~= day_keys(rows@, window_start, window_end).take(i as int),
        decreases n - i,
    {
        let ts: i64 = rows[i].ts_bucket;
        if ts < window_start || ts >= window_end {
            seconds.push(None);
            days.push(None);
        } else {
            seconds.push(Some(floor_to(ts, SECOND_US)));
            days.push(Some(floor_day_boundary(ts)));
        }
        i += 1;
    }
    proof {
        assert(seconds@ =~= second_keys(rows@, window_start, window_end));
        assert(days@ =~= day_keys(rows@, window_start, window_end));
    }
    Digest { by_second: gather(&seconds), by_day: gather(&days) }
}

/// Adds the minutes from `start` on and before `end`.
fn append_compact_minute_points(
    points: &mut Vec<CompactPoint>,
    fut: &Digest,
    spot: &Digest,
    Ghost(fut_rows): Ghost<Seq<CvdMinute>>,
    Ghost(spot_rows): Ghost<Seq<CvdMinute>>,
    window_start: i64,
    window_end: i64,
    start: i64,
    end: i64,
)
    requires
        fut.is_of(fut_rows, window_start, window_end),
        spot.is_of(spot_rows, window_start, window_end),
        -clock::INSTANT_LIMIT_US <= start,
        end <= clock::INSTANT_LIMIT_US,
    ensures
        ({
            let k = old(points)@.len() as int;
            let at = steps(start as int, end as int, MINUTE_US as int);
            &&& final(points)@.len() == k + at.len()
            &&& final(points)@.take(k) == old(points)@
            &&& forall|i: int|
                k <= i < final(points)@.len() ==> is_minute_point(
                    #[trigger] final(points)@[i],
                    fut_rows,
                    spot_rows,
                    window_start,
                    window_end,
                    at[i - k],
                )
        }),
{
    let ghost k = points@.len() as int;
    let ghost at = steps(start as int, end as int, MINUTE_US as int);
    let ghost before = points@;
    proof {
        lemma_steps(start as int, end as int, MINUTE_US as int);
    }
    let mut minute: i64 = start;
    while minute < end
        invariant
            fut.is_of(fut_rows, window_start, window_end),
            spot.is_of(spot_rows, window_start, window_end),
            -clock::INSTANT_LIMIT_US <= start,
            end <= clock::INSTANT_LIMIT_US,
            start <= minute,
            at == steps(start as int, end as int, MINUTE_US as int),
            forall|i: int| 0 <= i < at.len() ==> #[trigger] at[i] == start + i * MINUTE_US,
            start >= end ==> at.len() == 0,
            start < end ==> (at.len() - 1) * MINUTE_US < end - start <= at.len() * MINUTE_US,
            k == before.len(),
            points@.len() >= k,
            minute == start + (points@.len() - k) * MINUTE_US,
            points@.len() - k <= at.len(),
            points@.take(k) =~= before,
            forall|i: int|
                k <= i < points@.len() ==> is_minute_point(
                    #[trigger] points@[i],
                    fut_rows,
                    spot_rows,
                    window_start,
                    window_end,
                    at[i - k],
                ),
        decreases
            if minute < end {
                end - minute
            } else {
                0
            },
    {
        let ghost held = points@;
        let key: i64 = floor_to(minute, SECOND_US);
        let parts_fut: Vec<usize> = find(
            &fut.by_second,
            key,
            Ghost(second_keys(fut_rows, window_start, window_end)),
        );
        let parts_spot: Vec<usize> = find(
            &spot.by_second,
            key,
            Ghost(second_keys(spot_rows, window_start, window_end)),
        );
        let observed_minutes_fut: usize = if parts_fut.len() > 0 {
            1
        } else {
            0
        };
        let observed_minutes_spot: usize = if parts_spot.len() > 0 {
            1
        } else {
            0
        };
        proof {
            let j = points@.len() - k;
            assert(j < at.len()) by (nonlinear_arith)
                requires
                    j * MINUTE_US < end - start,
                    end - start <= at.len() * MINUTE_US,
            ;
            assert(at[j] == minute);
        }
        points.push(
            CompactPoint {
                ts: minute + MINUTE_US,
                is_day: false,
                parts_fut,
                parts_spot,
                observed_minutes_fut,
                observed_minutes_spot,
            },
        );
        proof {
            assert(points@.take(k) =~= held.take(k));
            assert((points@.len() - k) * MINUTE_US == (held.len() - k) * MINUTE_US + MINUTE_US)
                by (nonlinear_arith)
                requires
                    points@.len() == held.len() + 1,
            ;
        }
        minute = minute + MINUTE_US;
    }
    proof {
        let j = points@.len() - k;
        assert(j == at.len()) by {
            if j < at.len() {
                assert(j <= at.len() - 1);
                assert(j * MINUTE_US <= (at.len() - 1) * MINUTE_US) by (nonlinear_arith)
                    requires
                        j <= at.len() - 1,
                ;
            }
        }
    }
}

/// The compact series of a window: minutes up to the first full day, full days, and
/// minutes after the last.
pub fn build_current_window_compact_series(
    history_futures: &[CvdMinute],
    history_spot: &[CvdMinute],
    window_start: i64,
    window_end: i64,
) -> (out: CompactSeries)
    requires
        -clock::INSTANT_LIMIT_US + SECOND_US <= window_start <= clock::INSTANT_LIMIT_US,
        -clock::INSTANT_LIMIT_US + SECOND_US <= window_end <= clock::INSTANT_LIMIT_US - DAY_US,
        forall|i: int|
            0 <= i < history_futures@.len() ==> -clock::INSTANT_LIMIT_US + SECOND_US <= (
            #[trigger] history_futures@[i]).ts_bucket <= clock::INSTANT_LIMIT_US,
        forall|i: int|
            0 <= i < history_spot@.len() ==> -clock::INSTANT_LIMIT_US + SECOND_US <= (
            #[trigger] history_spot@[i]).ts_bucket <= clock::INSTANT_LIMIT_US,
    ensures
        is_compact_series(out, history_futures@, history_spot@, window_start, window_end),
{
    let mut points: Vec<CompactPoint> = Vec::new();
    if window_start >= window_end {
        return CompactSeries { points, minute_points: 0, day_points: 0 };
    }
    let fut: Digest = build_window_delta_digest(history_futures, window_start, window_end);
    let spot: Digest = build_window_delta_digest(history_spot, window_start, window_end);
    let first: i64 = ceil_day_boundary(window_start);
    let last: i64 = floor_day_boundary(window_end);
    if first >= last {
        append_compact_minute_points(
            &mut points,
            &fut,
            &spot,
            Ghost(history_futures@),
            Ghost(history_spot@),
            window_start,
            window_end,
            window_start,
            window_end,
        );
        let minute_points: usize = points.len();
        return CompactSeries { points, minute_points, day_points: 0 };
    }
    append_compact_minute_points(
        &mut points,
        &fut,
        &spot,
        Ghost(history_futures@),
        Ghost(history_spot@),
        window_start,
        window_end,
        window_start,
        if first < window_end {
            first
        } else {
            window_end
        },
    );
    let head: usize = points.len();
    let ghost headed = points@;
    let ghost l = layout(window_start, window_end);
    proof {
        lemma_steps(first as int, last as int, DAY_US as int);
    }
    let mut day: i64 = first;
    while day < last
        invariant
            fut.is_of(history_futures@, window_start, window_end),
            spot.is_of(history_spot@, window_start, window_end),
            first < last,
            first <= day,
            last <= clock::INSTANT_LIMIT_US - DAY_US,
            l.days == steps(first as int, last as int, DAY_US as int),
            forall|i: int| 0 <= i < l.days.len() ==> #[trigger] l.days[i] == first + i * DAY_US,
            (l.days.len() - 1) * DAY_US < last - first <= l.days.len() * DAY_US,
            head == headed.len(),
            points@.len() >= head,
            points@.len() - head <= l.days.len(),
            day == first + (points@.len() - head) * DAY_US,
            points@.take(head as int) =~= headed,
            forall|i: int|
                head <= i < points@.len() ==> is_day_point(
                    #[trigger] points@[i],
                    history_futures@,
                    history_spot@,
                    window_start,
                    window_end,
                    l.days[i - head],
                ),
        decreases
            if day < last {
                last - day
            } else {
                0
            },
    {
        let ghost held = points@;
        let parts_fut: Vec<usize> = find(
            &fut.by_day,
            day,
            Ghost(day_keys(history_futures@, window_start, window_end)),
        );
        let parts_spot: Vec<usize> = find(
            &spot.by_day,
            day,
            Ghost(day_keys(history_spot@, window_start, window_end)),
        );
        let observed_minutes_fut: usize = parts_fut.len();
        let observed_minutes_spot: usize = parts_spot.len();
        proof {
            let j = points@.len() - head;
            assert(j < l.days.len()) by (nonlinear_arith)
                requires
                    j * DAY_US < last - first,
                    last - first <= l.days.len() * DAY_US,
            ;
            assert(l.days[j] == day);
        }
        points.push(
            CompactPoint {
                ts: day + DAY_US,
                is_day: true,
                parts_fut,
                parts_spot,
                observed_minutes_fut,
                observed_minutes_spot,
            },
        );
        proof {
            assert(points@.take(head as int) =~= held.take(head as int));
            assert((points@.len() - head) * DAY_US == (held.len() - head) * DAY_US + DAY_US)
                by (nonlinear_arith)
                requires
                    points@.len() == held.len() + 1,
            ;
        }
        day = day + DAY_US;
    }
    proof {
        let j = points@.len() - head;
        assert(j == l.days.len()) by {
            if j < l.days.len() {
                assert(j * DAY_US <= (l.days.len() - 1) * DAY_US) by (nonlinear_arith)
                    requires
                        j <= l.days.len() - 1,
                ;
            }
        }
    }
    let day_points: usize = points.len() - head;
    let ghost with_days = points@;
    append_compact_minute_points(
        &mut points,
        &fut,
        &spot,
        Ghost(history_futures@),
        Ghost(history_spot@),
        window_start,
        window_end,
        if last > window_start {
            last
        } else {
            window_start
        },
        window_end,
    );
    let minute_points: usize = points.len() - day_points;
    proof {
        let h = head as int;
        assert forall|i: int| 0 <= i < with_days.len() implies points@[i] == with_days[i] by {
            assert(points@.take(with_days.len() as int)[i] == with_days[i]);
        }
        assert forall|i: int| 0 <= i < h implies with_days[i] == headed[i] by {
            assert(with_days.take(h)[i] == headed[i]);
        }
        assert(l.head.len() == h);
        assert(with_days.len() == h + l.days.len());
        assert(points@.len() == h + l.days.len() + l.tail.len());
        assert forall|i: int| 0 <= i < h implies is_minute_point(
            #[trigger] points@[i],
            history_futures@,
            history_spot@,
            window_start,
            window_end,
            l.head[i],
        ) by {
            assert(points@[i] == headed[i]);
        }
        assert forall|i: int| h <= i < h + l.days.len() implies is_day_point(
            #[trigger] points@[i],
            history_futures@,
            history_spot@,
            window_start,
            window_end,
            l.days[i - h],
        ) by {
            assert(points@[i] == with_days[i]);
        }
    }
    CompactSeries { points, minute_points, day_points }
}

proof fn lemma_steps_exact(from: int, to: int, step: int, q: int)
    requires
        step > 0,
        q >= 0,
        to - from == q * step,
    ensures
        steps(from, to, step).len() == q,
{
    lemma_steps(from, to, step);
    let n = steps(from, to, step).len() as int;
    if from < to {
        assert(n == q) by (nonlinear_arith)
            requires
                (n - 1) * step < to - from,
                to - from <= n * step,
                to - from == q * step,
                step > 0,
        ;
    } else {
        assert(q == 0) by (nonlinear_arith)
            requires
                to - from == q * step,
                to - from <= 0,
                step > 0,
                q >= 0,
        ;
    }
}

proof fn lemma_whole_minutes(ts: int)
    requires
        ts % (MINUTE_US as int) == 0,
    ensures
        ts == (ts / (MINUTE_US as int)) * MINUTE_US,
        clock::floor_spec(ts, SECOND_US as int) == ts,
        day_floor(ts) == (ts / (DAY_US as int)) * DAY_US,
        day_floor(ts) <= ts < day_floor(ts) + DAY_US,
{
    assert(ts % 1_000_000 == 0);
    assert(clock::floor_spec(ts, SECOND_US as int) == ts);
    clock::law_floor(ts, DAY_US as int);
}

/// The points of a compact series adjoin each other and fill the window, if it starts and
/// ends on minutes: minutes from its start to the first full day, days to the last one,
/// and minutes to its end.
pub proof fn law_compact_series_fills_window(window_start: i64, window_end: i64)
    requires
        window_start as int % (MINUTE_US as int) == 0,
        window_end as int % (MINUTE_US as int) == 0,
        window_start < window_end,
    ensures
        ({
            let l = layout(window_start, window_end);
            let first = day_ceil(window_start as int);
            let last = day_floor(window_end as int);
            &&& forall|i: int|
                0 <= i < l.head.len() ==> #[trigger] l.head[i] == window_start + i * MINUTE_US
            &&& first >= last ==> {
                &&& window_start + l.head.len() * MINUTE_US == window_end
                &&& l.days.len() == 0 && l.tail.len() == 0
            }
            &&& first < last ==> {
                &&& window_start + l.head.len() * MINUTE_US == first
                &&& forall|i: int|
                    0 <= i < l.days.len() ==> #[trigger] l.days[i] == first + i * DAY_US
                &&& first + l.days.len() * DAY_US == last
                &&& forall|i: int|
                    0 <= i < l.tail.len() ==> #[trigger] l.tail[i] == last + i * MINUTE_US
                &&& last + l.tail.len() * MINUTE_US == window_end
            }
        }),
{
    let s = window_start as int;
    let e = window_end as int;
    lemma_whole_minutes(s);
    lemma_whole_minutes(e);
    let first = day_ceil(s);
    let last = day_floor(e);
    let ms = s / (MINUTE_US as int);
    let me = e / (MINUTE_US as int);
    if first >= last {
        lemma_steps(s, e, MINUTE_US as int);
        lemma_steps_exact(s, e, MINUTE_US as int, me - ms);
    } else {
        let ds = s / (DAY_US as int);
        let df = if day_floor(s) == s {
            ds
        } else {
            ds + 1
        };
        let dl = e / (DAY_US as int);
        assert(first == df * DAY_US);
        assert(last == dl * DAY_US);
        assert(first < e);
        assert(last > s);
        lemma_steps(s, first, MINUTE_US as int);
        lemma_steps_exact(s, first, MINUTE_US as int, df * 1440 - ms);
        lemma_steps(first, last, DAY_US as int);
        lemma_steps_exact(first, last, DAY_US as int, dl - df);
        lemma_steps(last, e, MINUTE_US as int);
        lemma_steps_exact(last, e, MINUTE_US as int, me - dl * 1440);
    }
}

/// The points of a compact series count the minutes of its window: each one that stands
/// for a minute counts one, each that stands for a day 1440. The last of them ends where
/// the window does.
pub proof fn law_compact_series_counts_window(
    series: CompactSeries,
    fut: Seq<CvdMinute>,
    spot: Seq<CvdMinute>,
    window_start: i64,
    window_end: i64,
)
    requires
        is_compact_series(series, fut, spot, window_start, window_end),
        clock::is_instant(window_start),
        clock::is_instant(window_end),
        window_start as int % (MINUTE_US as int) == 0,
        window_end as int % (MINUTE_US as int) == 0,
    ensures
        series.points@.len() == series.minute_points + series.day_points,
        window_start < window_end ==> (series.minute_points + 1440 * series.day_points) * MINUTE_US
            == window_end - window_start,
        window_start >= window_end ==> series.points@.len() == 0,
        window_start < window_end ==> series.points@.len() > 0 && series.points@.last().ts
            == window_end,
        forall|a: int, b: int|
            0 <= a < b < series.points@.len() ==> (#[trigger] series.points@[a]).ts < (
            #[trigger] series.points@[b]).ts,
{
    if window_start < window_end {
        law_compact_series_fills_window(window_start, window_end);
        let l = layout(window_start, window_end);
        let h = l.head.len() as int;
        let d = l.days.len() as int;
        let first = day_ceil(window_start as int);
        let last = day_floor(window_end as int);
        assert forall|k: int| 0 <= k < series.points@.len() implies (
        #[trigger] series.points@[k]).ts == if k < h {
            window_start + (k + 1) * MINUTE_US
        } else if k < h + d {
            first + (k - h + 1) * DAY_US
        } else {
            last + (k - h - d + 1) * MINUTE_US
        } by {
            if k < h {
                assert(l.head[k] == window_start + k * MINUTE_US);
            } else if k < h + d {
                assert(l.days[k - h] == first + (k - h) * DAY_US);
            } else {
                assert(l.tail[k - h - d] == last + (k - h - d) * MINUTE_US);
            }
        }
    }
}

/// Every minute of the futures history within the window counts for exactly one point of
/// the compact series, if the window and the minute start on minutes.
pub proof fn law_compact_series_counts_each_minute_once(
    series: CompactSeries,
    fut: Seq<CvdMinute>,
    spot: Seq<CvdMinute>,
    window_start: i64,
    window_end: i64,
    i: int,
)
    requires
        is_compact_series(series, fut, spot, window_start, window_end),
        fut.len() <= usize::MAX,
        clock::is_instant(window_start),
        clock::is_instant(window_end),
        window_start as int % (MINUTE_US as int) == 0,
        window_end as int % (MINUTE_US as int) == 0,
        0 <= i < fut.len(),
        window_start <= fut[i].ts_bucket < window_end,
        fut[i].ts_bucket as int % (MINUTE_US as int) == 0,
    ensures
        exists|k: int|
            0 <= k < series.points@.len() && (#[trigger] series.points@[k]).parts_fut@.contains(
                i as usize,
            ),
        forall|a: int, b: int|
            0 <= a < b < series.points@.len() && (
            #[trigger] series.points@[a]).parts_fut@.contains(i as usize) ==> !(
            #[trigger] series.points@[b]).parts_fut@.contains(i as usize),
{
    let ts = fut[i].ts_bucket as int;
    assert forall|k: int| 0 <= k < series.points@.len() implies (
    #[trigger] series.points@[k]).parts_fut@.contains(i as usize) == (k == home(
        window_start,
        window_end,
        ts,
    )) by {
        let held = series.points@[k].parts_fut@;
        lemma_point_holds(held, fut, window_start, window_end, i, k);
    }
    let k = home(window_start, window_end, ts);
    lemma_home(window_start, window_end, ts);
    assert(series.points@[k].parts_fut@.contains(i as usize));
}

/// Every minute of the spot history within the window counts for exactly one point of
/// the compact series, if the window and the minute start on minutes.
pub proof fn law_compact_series_counts_each_spot_minute_once(
    series: CompactSeries,
    fut: Seq<CvdMinute>,
    spot: Seq<CvdMinute>,
    window_start: i64,
    window_end: i64,
    i: int,
)
    requires
        is_compact_series(series, fut, spot, window_start, window_end),
        spot.len() <= usize::MAX,
        clock::is_instant(window_start),
        clock::is_instant(window_end),
        window_start as int % (MINUTE_US as int) == 0,
        window_end as int % (MINUTE_US as int) == 0,
        0 <= i < spot.len(),
        window_start <= spot[i].ts_bucket < window_end,
        spot[i].ts_bucket as int % (MINUTE_US as int) == 0,
    ensures
        exists|k: int|
            0 <= k < series.points@.len() && (#[trigger] series.points@[k]).parts_spot@.contains(
                i as usize,
            ),
        forall|a: int, b: int|
            0 <= a < b < series.points@.len() && (
            #[trigger] series.points@[a]).parts_spot@.contains(i as usize) ==> !(
            #[trigger] series.points@[b]).parts_spot@.contains(i as usize),
{
    let ts = spot[i].ts_bucket as int;
    assert forall|k: int| 0 <= k < series.points@.len() implies (
    #[trigger] series.points@[k]).parts_spot@.contains(i as usize) == (k == home(
        window_start,
        window_end,
        ts,
    )) by {
        let held = series.points@[k].parts_spot@;
        lemma_point_holds(held, spot, window_start, window_end, i, k);
    }
    let k = home(window_start, window_end, ts);
    lemma_home(window_start, window_end, ts);
    assert(series.points@[k].parts_spot@.contains(i as usize));
}

/// Which point of the compact series a minute counts for.
spec fn home(window_start: i64, window_end: i64, ts: int) -> int {
    let l = layout(window_start, window_end);
    let first = day_ceil(window_start as int);
    let last = day_floor(window_end as int);
    if first >= last || ts < first {
        (ts - window_start) / (MINUTE_US as int)
    } else if ts < last {
        l.head.len() + (ts - first) / (DAY_US as int)
    } else {
        l.head.len() + l.days.len() + (ts - last) / (MINUTE_US as int)
    }
}

proof fn lemma_home(window_start: i64, window_end: i64, ts: int)
    requires
        window_start as int % (MINUTE_US as int) == 0,
        window_end as int % (MINUTE_US as int) == 0,
        ts % (MINUTE_US as int) == 0,
        window_start <= ts < window_end,
    ensures
        ({
            let l = layout(window_start, window_end);
            0 <= home(window_start, window_end, ts) < l.head.len() + l.days.len() + l.tail.len()
        }),
{
    law_compact_series_fills_window(window_start, window_end);
    lemma_whole_minutes(ts);
    lemma_whole_minutes(window_start as int);
    lemma_whole_minutes(window_end as int);
}

/// A day is that of an instant exactly if it lies as many days after a midnight as the
/// instant does.
proof fn lemma_day_place(first: int, j: int, ts: int)
    requires
        first % (DAY_US as int) == 0,
        j >= 0,
    ensures
        (day_floor(ts) == first + j * DAY_US) == (ts >= first && (ts - first) / (DAY_US as int)
            == j),
{
    let q = first / (DAY_US as int);
    assert(first == q * DAY_US);
    if ts >= first {
        let n = (ts - first) / (DAY_US as int);
        assert(ts / (DAY_US as int) == q + n);
        assert(day_floor(ts) == (q + n) * DAY_US);
    } else {
        assert(ts / (DAY_US as int) < q);
    }
}

/// A whole minute is the one that lies as many minutes after another as it does.
proof fn lemma_minute_place(from: int, j: int, ts: int)
    requires
        from % (MINUTE_US as int) == 0,
        ts % (MINUTE_US as int) == 0,
        j >= 0,
    ensures
        (ts == from + j * MINUTE_US) == (ts >= from && (ts - from) / (MINUTE_US as int) == j),
{
}

#[verifier::rlimit(50)]
#[verifier::spinoff_prover]
proof fn lemma_point_holds(
    held: Seq<usize>,
    rows: Seq<CvdMinute>,
    window_start: i64,
    window_end: i64,
    i: int,
    k: int,
)
    requires
        rows.len() <= usize::MAX,
        clock::is_instant(window_start),
        clock::is_instant(window_end),
        window_start as int % (MINUTE_US as int) == 0,
        window_end as int % (MINUTE_US as int) == 0,
        0 <= i < rows.len(),
        window_start <= rows[i].ts_bucket < window_end,
        rows[i].ts_bucket as int % (MINUTE_US as int) == 0,
        ({
            let l = layout(window_start, window_end);
            let h = l.head.len() as int;
            let d = l.days.len() as int;
            &&& 0 <= k < h + d + l.tail.len()
            &&& held == if k < h {
                minute_parts(rows, window_start, window_end, l.head[k])
            } else if k < h + d {
                day_parts(rows, window_start, window_end, l.days[k - h])
            } else {
                minute_parts(rows, window_start, window_end, l.tail[k - h - d])
            }
        }),
    ensures
        held.contains(i as usize) == (k == home(window_start, window_end, rows[i].ts_bucket as int)),
{
    let ts = rows[i].ts_bucket as int;
    let l = layout(window_start, window_end);
    let h = l.head.len() as int;
    let d = l.days.len() as int;
    let first = day_ceil(window_start as int);
    let last = day_floor(window_end as int);
    law_compact_series_fills_window(window_start, window_end);
    lemma_whole_minutes(ts);
    lemma_whole_minutes(window_start as int);
    lemma_whole_minutes(window_end as int);
    lemma_home(window_start, window_end, ts);
    let hm = home(window_start, window_end, ts);
    if h <= k < h + d {
        let day = l.days[k - h];
        assert(day == first + (k - h) * DAY_US);
        lemma_in_places(
            day_keys(rows, window_start, window_end),
            day as i64,
            rows.len() as int,
            i,
        );
        assert(day_keys(rows, window_start, window_end)[i] == Some(day_floor(ts) as i64));
        assert(held.contains(i as usize) == (day_floor(ts) == day));
        lemma_day_place(first, k - h, ts);
        assert((day_floor(ts) == day) == (k == hm));
    } else {
        let at = if k < h {
            l.head[k]
        } else {
            l.tail[k - h - d]
        };
        assert(at % (MINUTE_US as int) == 0);
        lemma_whole_minutes(at);
        lemma_in_places(
            second_keys(rows, window_start, window_end),
            at as i64,
            rows.len() as int,
            i,
        );
        assert(second_keys(rows, window_start, window_end)[i] == Some(ts as i64));
        assert(held.contains(i as usize) == (ts == at));
        if k < h {
            lemma_minute_place(window_start as int, k, ts);
        } else {
            lemma_minute_place(last, k - h - d, ts);
        }
        assert((ts == at) == (k == hm));
    }
}

proof fn lemma_in_places(keys: Seq<Option<i64>>, key: i64, hi: int, i: int)
    requires
        0 <= i < hi <= keys.len(),
        keys.len() <= usize::MAX,
    ensures
        grouping::places_of(keys, key, hi).contains(i as usize) == (keys[i] == Some(key)),
{
    grouping::law_places_of(keys, key, hi);
    let places = grouping::places_of(keys, key, hi);
    if places.contains(i as usize) {
        let p = choose|p: int| 0 <= p < places.len() && places[p] == i as usize;
        assert(keys[places[p] as int] == Some(key));
    }
}

/// What a recent window holds of both markets.
#[derive(Clone, Debug, PartialEq, Eq)]
pub struct CurrentWindow {
    pub window_start: i64,
    pub window_end: i64,
    pub fut: Option<CvdBar>,
    pub spot: Option<CvdBar>,
    pub observed_minutes_fut: usize,
    pub observed_minutes_spot: usize,
    pub missing_minutes_fut: i64,
    pub missing_minutes_spot: i64,
    pub is_ready: bool,
    pub compact_series: CompactSeries,
}

/// How many minutes a window asks for: at least one.
pub open spec fn asked_minutes(interval_mins: i64) -> int {
    if interval_mins < 1 {
        1
    } else {
        interval_mins as int
    }
}

/// How many minutes of a window there are.
pub open spec fn observed(rows: Seq<CvdMinute>, window_start: i64, window_end: i64) -> int {
    window_places(rows, window_start, window_end).len() as int
}

/// Whether a window is the one of some minutes that ends with a minute: its bars, how many
/// minutes of each market it has and misses, and its compact series.
pub open spec fn is_current_window(
    out: CurrentWindow,
    fut: Seq<CvdMinute>,
    spot: Seq<CvdMinute>,
    ts_bucket: i64,
    interval_mins: i64,
) -> bool {
    &&& out.window_end == ts_bucket + MINUTE_US
    &&& out.window_start == ts_bucket + MINUTE_US - asked_minutes(interval_mins) * MINUTE_US
    &&& out.observed_minutes_fut == observed(fut, out.window_start, out.window_end)
    &&& out.observed_minutes_spot == observed(spot, out.window_start, out.window_end)
    &&& out.missing_minutes_fut == asked_minutes(interval_mins) - out.observed_minutes_fut
    &&& out.missing_minutes_spot == asked_minutes(interval_mins) - out.observed_minutes_spot
    &&& out.is_ready == (out.missing_minutes_fut <= 0 && out.missing_minutes_spot <= 0)
    &&& (out.fut is Some) == (out.observed_minutes_fut > 0)
    &&& (out.spot is Some) == (out.observed_minutes_spot > 0)
    &&& out.fut matches Some(bar) ==> is_bar_of(
        bar,
        out.window_end,
        fut,
        window_places(fut, out.window_start, out.window_end),
    )
    &&& out.spot matches Some(bar) ==> is_bar_of(
        bar,
        out.window_end,
        spot,
        window_places(spot, out.window_start, out.window_end),
    )
    &&& is_compact_series(out.compact_series, fut, spot, out.window_start, out.window_end)
}

/// The recent window of `interval_mins` minutes up to the end of the minute `ts_bucket`.
pub fn build_current_window_payload(
    history_futures: &[CvdMinute],
    history_spot: &[CvdMinute],
    ts_bucket: i64,
    interval_mins: i64,
) -> (out: CurrentWindow)
    requires
        ts_bucket + MINUTE_US <= clock::INSTANT_LIMIT_US - DAY_US,
        interval_mins <= clock::WINDOW_LIMIT_MINUTES,
        -clock::INSTANT_LIMIT_US + SECOND_US <= ts_bucket + MINUTE_US - asked_minutes(interval_mins)
            * MINUTE_US,
        forall|i: int|
            0 <= i < history_futures@.len() ==> -clock::INSTANT_LIMIT_US + SECOND_US <= (
            #[trigger] history_futures@[i]).ts_bucket <= clock::INSTANT_LIMIT_US,
        forall|i: int|
            0 <= i < history_spot@.len() ==> -clock::INSTANT_LIMIT_US + SECOND_US <= (
            #[trigger] history_spot@[i]).ts_bucket <= clock::INSTANT_LIMIT_US,
        history_futures@.len() <= i64::MAX,
        history_spot@.len() <= i64::MAX,
    ensures
        is_current_window(out, history_futures@, history_spot@, ts_bucket, interval_mins),
{
    let asked: i64 = if interval_mins < 1 {
        1
    } else {
        interval_mins
    };
    let window_end: i64 = ts_bucket + MINUTE_US;
    let window_start: i64 = window_end - asked * MINUTE_US;
    let fut: Option<CvdBar> = aggregate_recent_window(history_futures, window_start, window_end);
    let spot: Option<CvdBar> = aggregate_recent_window(history_spot, window_start, window_end);
    let observed_minutes_fut: usize = match &fut {
        Some(bar) => bar.parts.len(),
        None => 0,
    };
    let observed_minutes_spot: usize = match &spot {
        Some(bar) => bar.parts.len(),
        None => 0,
    };
    proof {
        lemma_places_bounded(
            history::stamps(history_futures@),
            window_start - 1,
            window_end - 1,
            history_futures@.len() as int,
        );
        lemma_places_bounded(
            history::stamps(history_spot@),
            window_start - 1,
            window_end - 1,
            history_spot@.len() as int,
        );
    }
    let missing_minutes_fut: i64 = asked - observed_minutes_fut as i64;
    let missing_minutes_spot: i64 = asked - observed_minutes_spot as i64;
    CurrentWindow {
        window_start,
        window_end,
        fut,
        spot,
        observed_minutes_fut,
        observed_minutes_spot,
        missing_minutes_fut,
        missing_minutes_spot,
        is_ready: missing_minutes_fut <= 0 && missing_minutes_spot <= 0,
        compact_series: build_current_window_compact_series(
            history_futures,
            history_spot,
            window_start,
            window_end,
        ),
    }
}

proof fn lemma_places_bounded(ts: Seq<i64>, after: int, upto: int, hi: int)
    requires
        0 <= hi <= ts.len(),
    ensures
        windows::places_within(ts, after, upto, hi).len() <= hi,
    decreases hi,
{
    if hi > 0 {
        lemma_places_bounded(ts, after, upto, hi - 1);
    }
}

/// The minutes of a window that is not over yet.
#[derive(Clone, Debug, PartialEq, Eq)]
pub struct PartialWindow {
    pub window_start: i64,
    pub window_end: i64,
    /// The places of the minutes of the futures history, in order.
    pub minutes: Vec<usize>,
    /// For each of them the place of the minute of the spot history, where there is one.
    pub spot: Vec<Option<usize>>,
    /// From which of the minutes on they are listed.
    pub listed_from: usize,
}

/// The place of the last minute of the window in the second of `ts`, among the first `hi`.
pub open spec fn spot_place(
    rows: Seq<CvdMinute>,
    window_start: i64,
    ts_bucket: i64,
    ts: i64,
    hi: int,
) -> Option<int>
    decreases hi,
{
    if hi <= 0 {
        None
    } else if window_start <= rows[hi - 1].ts_bucket <= ts_bucket && clock::floor_spec(
        rows[hi - 1].ts_bucket as int,
        SECOND_US as int,
    ) == clock::floor_spec(ts as int, SECOND_US as int) {
        Some(hi - 1)
    } else {
        spot_place(rows, window_start, ts_bucket, ts, hi - 1)
    }
}

proof fn lemma_spot_place(
    rows: Seq<CvdMinute>,
    window_start: i64,
    ts_bucket: i64,
    ts: i64,
    hi: int,
)
    requires
        0 <= hi <= rows.len(),
        rows.len() <= usize::MAX,
        ts_bucket < i64::MAX,
        forall|i: int|
            0 <= i < rows.len() ==> -clock::INSTANT_LIMIT_US + SECOND_US <= (
            #[trigger] rows[i]).ts_bucket <= clock::INSTANT_LIMIT_US,
        -clock::INSTANT_LIMIT_US + SECOND_US <= ts <= clock::INSTANT_LIMIT_US,
    ensures
        ({
            let key = clock::floor_spec(ts as int, SECOND_US as int) as i64;
            let places = grouping::places_of(
                second_keys(rows, window_start, (ts_bucket + 1) as i64),
                key,
                hi,
            );
            match spot_place(rows, window_start, ts_bucket, ts, hi) {
                None => places.len() == 0,
                Some(i) => places.len() > 0 && places.last() == i,
            }
        }),
    decreases hi,
{
    if hi > 0 {
        lemma_spot_place(rows, window_start, ts_bucket, ts, hi - 1);
        let at = rows[hi - 1].ts_bucket as int;
        clock::law_floor(at, SECOND_US as int);
        clock::law_floor(ts as int, SECOND_US as int);
    }
}

/// Whether a window is the open one of some minutes that a minute lies in: its futures
/// minutes so far, each with the spot minute of the same instant, and those that are listed;
/// none before its first minute.
pub open spec fn is_partial_window(
    out: Option<PartialWindow>,
    fut: Seq<CvdMinute>,
    spot: Seq<CvdMinute>,
    ts_bucket: i64,
    interval_mins: i64,
) -> bool {
    let end = bar_end(ts_bucket + MINUTE_US, interval_mins as int);
    let start = (end - interval_mins * MINUTE_US) as i64;
    let places = window_places(fut, start, (ts_bucket + 1) as i64);
    &&& (out is None) == (places.len() == 0)
    &&& out matches Some(w) ==> {
        &&& w.window_end == end
        &&& w.window_start == end - interval_mins * MINUTE_US
        &&& w.minutes@ == places
        &&& w.spot@.len() == places.len()
        &&& forall|k: int|
            0 <= k < places.len() ==> as_place(#[trigger] w.spot@[k]) == spot_place(
                spot,
                start,
                ts_bucket,
                fut[places[k] as int].ts_bucket,
                spot.len() as int,
            )
        &&& w.listed_from == listed_from(places.len(), interval_mins)
    }
}

/// The minutes of the window that `ts_bucket` falls in, up to that minute; none where the
/// futures history has no such minute.
pub fn build_partial_window(
    history_futures: &[CvdMinute],
    history_spot: &[CvdMinute],
    ts_bucket: i64,
    interval_mins: i64,
) -> (out: Option<PartialWindow>)
    requires
        -clock::DATE_LIMIT_US <= ts_bucket <= clock::DATE_LIMIT_US,
        0 < interval_mins <= clock::WINDOW_LIMIT_MINUTES,
        forall|i: int|
            0 <= i < history_futures@.len() ==> -clock::INSTANT_LIMIT_US + SECOND_US <= (
            #[trigger] history_futures@[i]).ts_bucket <= clock::INSTANT_LIMIT_US,
        forall|i: int|
            0 <= i < history_spot@.len() ==> -clock::INSTANT_LIMIT_US + SECOND_US <= (
            #[trigger] history_spot@[i]).ts_bucket <= clock::INSTANT_LIMIT_US,
    ensures
        is_partial_window(out, history_futures@, history_spot@, ts_bucket, interval_mins),
{
    let window_end: i64 = align_bar_end(ts_bucket + MINUTE_US, interval_mins);
    let window_start: i64 = window_end - interval_mins * MINUTE_US;
    let minutes: Vec<usize> = rows_within(history_futures, window_start - 1, ts_bucket);
    let ghost places = window_places(history_futures@, window_start, (ts_bucket + 1) as i64);
    proof {
        let found = windows::places_within(
            history::stamps(history_futures@),
            window_start - 1,
            ts_bucket as int,
            history_futures@.len() as int,
        );
        windows::law_places_within(
            history::stamps(history_futures@),
            window_start - 1,
            ts_bucket as int,
            history_futures@.len() as int,
        );
        assert(minutes@ =~= places) by {
            assert forall|p: int| 0 <= p < minutes@.len() implies minutes@[p] as int
                == found[p] by {
                assert(minutes@.map_values(|i: usize| i as int)[p] == found[p]);
            }
        }
        assert forall|p: int| 0 <= p < minutes@.len() implies (#[trigger] minutes@[p])
            < history_futures@.len() by {
            assert(minutes@.map_values(|i: usize| i as int)[p] == found[p]);
        }
    }
    if minutes.len() == 0 {
        return None;
    }
    let digest: Digest = build_window_delta_digest(history_spot, window_start, ts_bucket + 1);
    let ghost keys = second_keys(history_spot@, window_start, (ts_bucket + 1) as i64);
    let mut spot: Vec<Option<usize>> = Vec::new();
    let n: usize = minutes.len();
    let mut k: usize = 0;
    while k < n
        invariant
            k <= n,
            n == minutes@.len(),
            minutes@ == places,
            ts_bucket < i64::MAX,
            keys == second_keys(history_spot@, window_start, (ts_bucket + 1) as i64),
            digest.is_of(history_spot@, window_start, (ts_bucket + 1) as i64),
            forall|p: int| 0 <= p < minutes@.len() ==> (#[trigger] minutes@[p])
                < history_futures@.len(),
            forall|i: int|
                0 <= i < history_futures@.len() ==> -clock::INSTANT_LIMIT_US + SECOND_US <= (
                #[trigger] history_futures@[i]).ts_bucket <= clock::INSTANT_LIMIT_US,
            forall|i: int|
                0 <= i < history_spot@.len() ==> -clock::INSTANT_LIMIT_US + SECOND_US <= (
                #[trigger] history_spot@[i]).ts_bucket <= clock::INSTANT_LIMIT_US,
            spot@.len() == k,
            forall|j: int|
                0 <= j < k ==> as_place(#[trigger] spot@[j]) == spot_place(
                    history_spot@,
                    window_start,
                    ts_bucket,
                    history_futures@[places[j] as int].ts_bucket,
                    history_spot@.len() as int,
                ),
        decreases n - k,
    {
        let ts: i64 = history_futures[minutes[k]].ts_bucket;
        let found: Vec<usize> = find(&digest.by_second, floor_to(ts, SECOND_US), Ghost(keys));
        proof {
            lemma_spot_place(
                history_spot@,
                window_start,
                ts_bucket,
                ts,
                history_spot@.len() as int,
            );
        }
        if found.len() == 0 {
            spot.push(None);
        } else {
            spot.push(Some(found[found.len() - 1]));
        }
        k += 1;
    }
    let limit: usize = if interval_mins <= 15 {
        interval_mins as usize
    } else {
        PARTIAL_SERIES_TAIL_LIMIT
    };
    let listed_from: usize = if n <= limit {
        0
    } else {
        n - limit
    };
    Some(PartialWindow { window_start, window_end, minutes, spot, listed_from })
}

/// A place as a number.
pub open spec fn as_place(place: Option<usize>) -> Option<int> {
    match place {
        None => None,
        Some(i) => Some(i as int),
    }
}

/// From which minute of an open window on the minutes are listed: as many as the window
/// has, fifteen at most.
pub open spec fn listed_from(minutes: nat, interval_mins: i64) -> int {
    let limit = if interval_mins <= 15 {
        interval_mins as int
    } else {
        15
    };
    if minutes <= limit {
        0
    } else {
        minutes - limit
    }
}

/// From where on the last `count` of `n` rows stand; fewer where there are not as many.
pub fn recent_from(n: usize, count: usize) -> (out: usize)
    ensures
        out == if n <= count {
            0
        } else {
            n - count
        },
{
    if n <= count {
        0
    } else {
        n - count
    }
}

/// The last `count` of `n` rows; none unless there are as many.
pub fn recent_rows(n: usize, count: usize) -> (out: Option<(usize, usize)>)
    ensures
        out == if n < count {
            None::<(usize, usize)>
        } else {
            Some(((n - count) as usize, n))
        },
{
    if n < count {
        None
    } else {
        Some((n - count, n))
    }
}

/// The `count` of `n` rows before the last `count`; none unless there are as many.
pub fn previous_rows(n: usize, count: usize) -> (out: Option<(usize, usize)>)
    ensures
        out == if n < 2 * count {
            None::<(usize, usize)>
        } else {
            Some(((n - 2 * count) as usize, (n - count) as usize))
        },
{
    if n < count || n - count < count {
        None
    } else {
        Some((n - count - count, n - count))
    }
}

/// How the delta of an open window develops.
#[derive(Clone, Copy, Debug, PartialEq, Eq)]
pub enum PartialRegime {
    InsufficientData,
    ReversalToSelling,
    ReversalToBuying,
    Accelerating,
    Decelerating,
    Steady,
}

impl PartialRegime {
    /// The name of the regime.
    pub open spec fn spec_name(self) -> Seq<char> {
        match self {
            PartialRegime::InsufficientData => "insufficient_data"@,
            PartialRegime::ReversalToSelling => "reversal_to_selling"@,
            PartialRegime::ReversalToBuying => "reversal_to_buying"@,
            PartialRegime::Accelerating => "accelerating"@,
            PartialRegime::Decelerating => "decelerating"@,
            PartialRegime::Steady => "steady"@,
        }
    }

    /// The name of the regime.
    pub fn name(self) -> (out: &'static str)
        ensures
            out@ == self.spec_name(),
    {
        match self {
            PartialRegime::InsufficientData => "insufficient_data",
            PartialRegime::ReversalToSelling => "reversal_to_selling",
            PartialRegime::ReversalToBuying => "reversal_to_buying",
            PartialRegime::Accelerating => "accelerating",
            PartialRegime::Decelerating => "decelerating",
            PartialRegime::Steady => "steady",
        }
    }
}

/// A slope with one and a half times and half its size.
#[derive(Clone, Copy, Debug, PartialEq, Eq)]
pub struct Slope {
    pub at: Key,
    /// One and a half times its size.
    pub well_above: Key,
    /// Half its size.
    pub well_below: Key,
}

/// The size of a number.
pub open spec fn size(key: Key) -> int {
    if key < 0 {
        -key
    } else {
        key as int
    }
}

/// The regime of an open window: not told from fewer than six minutes or without both
/// slopes, a reversal where the slope changed its side, and else whether it grew by more
/// than half or shrank by more than half.
pub open spec fn regime(recent: Option<Key>, prev: Option<Slope>, minutes_elapsed: usize) -> PartialRegime {
    if minutes_elapsed < 6 {
        PartialRegime::InsufficientData
    } else {
        match (recent, prev) {
            (Some(recent), Some(prev)) => if prev.at > 0 && recent < 0 {
                PartialRegime::ReversalToSelling
            } else if prev.at < 0 && recent > 0 {
                PartialRegime::ReversalToBuying
            } else if size(prev.at) > KEY_FLAT && size(recent) > prev.well_above {
                PartialRegime::Accelerating
            } else if size(prev.at) > KEY_FLAT && size(recent) < prev.well_below {
                PartialRegime::Decelerating
            } else {
                PartialRegime::Steady
            },
            _ => PartialRegime::InsufficientData,
        }
    }
}

fn size_of(key: Key) -> (out: Key)
    requires
        order::is_key(key),
    ensures
        out == size(key),
{
    if key < 0 {
        -key
    } else {
        key
    }
}

/// The regime of an open window.
pub fn classify_partial_regime(
    recent: Option<Key>,
    prev: Option<Slope>,
    minutes_elapsed: usize,
) -> (out: PartialRegime)
    requires
        recent matches Some(k) ==> order::is_key(k),
        prev matches Some(s) ==> order::is_key(s.at),
    ensures
        out == regime(recent, prev, minutes_elapsed),
{
    if minutes_elapsed < 6 {
        return PartialRegime::InsufficientData;
    }
    match (recent, prev) {
        (Some(recent), Some(prev)) => {
            if prev.at > 0 && recent < 0 {
                return PartialRegime::ReversalToSelling;
            }
            if prev.at < 0 && recent > 0 {
                return PartialRegime::ReversalToBuying;
            }
            if size_of(prev.at) > KEY_FLAT && size_of(recent) > prev.well_above {
                return PartialRegime::Accelerating;
            }
            if size_of(prev.at) > KEY_FLAT && size_of(recent) < prev.well_below {
                return PartialRegime::Decelerating;
            }
            PartialRegime::Steady
        },
        _ => PartialRegime::InsufficientData,
    }
}

/// Whether the spot market drives: its delta is the larger.
pub fn spot_drives(delta_fut: Key, delta_spot: Key) -> (out: bool)
    requires
        order::is_key(delta_fut),
        order::is_key(delta_spot),
    ensures
        out == (size(delta_spot) > size(delta_fut)),
{
    size_of(delta_spot) > size_of(delta_fut)
}

/// The name of the market that drives.
pub fn likely_driver(delta_fut: Key, delta_spot: Key) -> (out: &'static str)
    requires
        order::is_key(delta_fut),
        order::is_key(delta_spot),
    ensures
        out@ == if size(delta_spot) > size(delta_fut) {
            "spot"@
        } else {
            "futures"@
        },
{
    if spot_drives(delta_fut, delta_spot) {
        "spot"
    } else {
        "futures"
    }
}

/// The bars that both markets have, in order, up to the first `hi` of the futures market.
pub open spec fn pairs(fut: Seq<CvdBar>, spot: Seq<CvdBar>, hi: int) -> Seq<(usize, usize)>
    decreases hi,
{
    if hi <= 0 {
        Seq::empty()
    } else if ends_at(spot, fut[hi - 1].ts) {
        pairs(fut, spot, hi - 1).push(
            (
                (hi - 1) as usize,
                (choose|b: int| 0 <= b < spot.len() && (#[trigger] spot[b]).ts == fut[hi
                    - 1].ts) as usize,
            ),
        )
    } else {
        pairs(fut, spot, hi - 1)
    }
}

/// The bars that both markets have, by their places, in the order of the futures bars.
pub fn dual_pairs(fut_bars: &[CvdBar], spot_bars: &[CvdBar]) -> (out: Vec<(usize, usize)>)
    requires
        forall|a: int, b: int|
            0 <= a < b < spot_bars@.len() ==> (#[trigger] spot_bars@[a]).ts < (
            #[trigger] spot_bars@[b]).ts,
    ensures
        out@ == pairs(fut_bars@, spot_bars@, fut_bars@.len() as int),
{
    let mut out: Vec<(usize, usize)> = Vec::new();
    let n: usize = fut_bars.len();
    let mut i: usize = 0;
    proof {
        let ts = history::stamps(spot_bars@);
        assert forall|a: int, b: int| 0 <= a <= b < ts.len() implies ts[a] <= ts[b] by {
            if a < b {
                assert(spot_bars@[a].ts < spot_bars@[b].ts);
            }
        }
    }
    while i < n
        invariant
            i <= n,
            n == fut_bars@.len(),
            forall|a: int, b: int|
                0 <= a < b < spot_bars@.len() ==> (#[trigger] spot_bars@[a]).ts < (
                #[trigger] spot_bars@[b]).ts,
            history::in_order(history::stamps(spot_bars@)),
            out@ == pairs(fut_bars@, spot_bars@, i as int),
        decreases n - i,
    {
        let t: i64 = fut_bars[i].ts;
        let at: usize = lower_bound(spot_bars, t);
        proof {
            history::lemma_first_at_or_after(history::stamps(spot_bars@), t);
        }
        if at < spot_bars.len() && spot_bars[at].ts == t {
            proof {
                assert(ends_at(spot_bars@, t));
                let b = choose|b: int|
                    0 <= b < spot_bars@.len() && (#[trigger] spot_bars@[b]).ts == t;
                if b < at {
                    assert(spot_bars@[b].ts < spot_bars@[at as int].ts);
                } else if b > at {
                    assert(spot_bars@[at as int].ts < spot_bars@[b].ts);
                }
            }
            out.push((i, at));
        } else {
            proof {
                if ends_at(spot_bars@, t) {
                    let b = choose|b: int|
                        0 <= b < spot_bars@.len() && (#[trigger] spot_bars@[b]).ts == t;
                    let ts = history::stamps(spot_bars@);
                    assert(ts[b] == t);
                    if b > at {
                        assert(ts[at as int] >= t);
                        assert(spot_bars@[at as int].ts < spot_bars@[b].ts);
                    }
                }
            }
        }
        i += 1;
    }
    out
}

/// The earlier bars that the bar at place `i` is compared with; none where there are not
/// enough.
pub fn z_lookback(i: usize) -> (out: Option<(usize, usize)>)
    ensures
        out == if i < 64 {
            None::<(usize, usize)>
        } else {
            Some(((i - 64) as usize, i))
        },
{
    if i < DELTA_Z_LOOKBACK {
        None
    } else {
        Some((i - DELTA_Z_LOOKBACK, i))
    }
}

/// What is reported of a window.
#[derive(Debug)]
pub struct CvdWindow {
    pub label: &'static str,
    pub minutes: i64,
    /// The completed bars of each market.
    pub fut: Vec<CvdBar>,
    pub spot: Vec<CvdBar>,
    /// The window that ends with the minute.
    pub current: CurrentWindow,
    /// The open window, for the windows that have one.
    pub partial: Option<PartialWindow>,
}

/// The report of a minute.
#[derive(Debug)]
pub struct CvdReport {
    pub by_window: Vec<CvdWindow>,
    /// Whether spot trading outweighs futures trading.
    pub spot_drives: bool,
    pub likely_driver: &'static str,
}

/// Whether a window reports the completed bars of both markets, the window that ends with
/// the minute, and the open window where there is one.
pub open spec fn is_window_report(
    out: CvdWindow,
    label: Seq<char>,
    minutes: i64,
    fut: Seq<CvdMinute>,
    spot: Seq<CvdMinute>,
    ts_bucket: i64,
) -> bool {
    &&& out.label@ == label
    &&& out.minutes == minutes
    &&& are_completed_bars(out.fut@, fut, ts_bucket, minutes)
    &&& are_completed_bars(out.spot@, spot, ts_bucket, minutes)
    &&& is_current_window(out.current, fut, spot, ts_bucket, minutes)
    &&& if minutes == 15 || minutes == 240 || minutes == 1440 {
        is_partial_window(out.partial, fut, spot, ts_bucket, minutes)
    } else {
        out.partial is None
    }
}

/// Whether all minutes lie at instants that can be worked with.
pub open spec fn minutes_are_sound(rows: Seq<CvdMinute>) -> bool {
    &&& rows.len() <= i64::MAX
    &&& forall|i: int|
        0 <= i < rows.len() ==> -clock::INSTANT_LIMIT_US + SECOND_US <= (
        #[trigger] rows[i]).ts_bucket <= clock::INSTANT_LIMIT_US - MINUTE_US
}

/// The cumulative volume delta indicator.
pub struct I14CvdPack;

impl I14CvdPack {
    /// The code of the indicator.
    pub fn code(&self) -> (out: &'static str)
        ensures
            out@ == "cvd_pack"@,
    {
        "cvd_pack"
    }

    /// The report of a minute: each window, and which market drives, by what was traded in
    /// the minute.
    pub fn evaluate(
        &self,
        history_futures: &[CvdMinute],
        history_spot: &[CvdMinute],
        ts_bucket: i64,
        delta_fut: Key,
        delta_spot: Key,
    ) -> (out: CvdReport)
        requires
            -clock::DATE_LIMIT_US <= ts_bucket <= clock::DATE_LIMIT_US,
            minutes_are_sound(history_futures@),
            minutes_are_sound(history_spot@),
            order::is_key(delta_fut),
            order::is_key(delta_spot),
        ensures
            out.by_window@.len() == 8,
            forall|w: int|
                0 <= w < 8 ==> is_window_report(
                    #[trigger] out.by_window@[w],
                    spec_windows()[w].0,
                    spec_windows()[w].1,
                    history_futures@,
                    history_spot@,
                    ts_bucket,
                ),
            out.spot_drives == (size(delta_spot) > size(delta_fut)),
            out.likely_driver@ == if size(delta_spot) > size(delta_fut) {
                "spot"@
            } else {
                "futures"@
            },
    {
        let asked: [(&'static str, i64); 8] = windows();
        let mut by_window: Vec<CvdWindow> = Vec::new();
        let mut w: usize = 0;
        while w < 8
            invariant
                w <= 8,
                by_window@.len() == w,
                forall|j: int|
                    0 <= j < 8 ==> (#[trigger] asked@[j]).0@ == spec_windows()[j].0 && asked@[j].1
                        == spec_windows()[j].1,
                -clock::DATE_LIMIT_US <= ts_bucket <= clock::DATE_LIMIT_US,
                minutes_are_sound(history_futures@),
                minutes_are_sound(history_spot@),
                forall|i: int|
                    0 <= i < w ==> is_window_report(
                        #[trigger] by_window@[i],
                        spec_windows()[i].0,
                        spec_windows()[i].1,
                        history_futures@,
                        history_spot@,
                        ts_bucket,
                    ),
            decreases 8 - w,
        {
            let (label, minutes): (&'static str, i64) = asked[w];
            proof {
                assert(asked@[w as int].1 == spec_windows()[w as int].1);
                assert(1 <= minutes <= 43_200);
            }
            let fut: Vec<CvdBar> = aggregate_bars(history_futures, ts_bucket, minutes);
            let spot: Vec<CvdBar> = aggregate_bars(history_spot, ts_bucket, minutes);
            let current: CurrentWindow = build_current_window_payload(
                history_futures,
                history_spot,
                ts_bucket,
                minutes,
            );
            let partial: Option<PartialWindow> = if has_partial_window(minutes) {
                build_partial_window(history_futures, history_spot, ts_bucket, minutes)
            } else {
                None
            };
            by_window.push(CvdWindow { label, minutes, fut, spot, current, partial });
            w += 1;
        }
        CvdReport {
            by_window,
            spot_drives: spot_drives(delta_fut, delta_spot),
            likely_driver: likely_driver(delta_fut, delta_spot),
        }
    }
}

/// Every window is as long as its name says.
pub proof fn law_windows_are_named(w: int)
    requires
        0 <= w < 8,
    ensures
        clock::named_minutes(spec_windows()[w].0) == spec_windows()[w].1,
{
    clock::lemma_named_minutes();
}

/// A minute opens, closes and peaks at its own prices where it has them. A missing high or low
/// gives way to the close, a missing close to the last price, a missing open to the close and
/// then to the last price; a minute without any stands at zero.
pub proof fn law_minute_marks(m: CvdMinute)
    ensures
        m.open matches Some(k) ==> open_mark(m) == k,
        m.close matches Some(k) ==> close_mark(m) == k,
        m.high matches Some(k) ==> high_mark(m) == k,
        m.low matches Some(k) ==> low_mark(m) == k,
        m.high is None ==> high_mark(m) == close_mark(m),
        m.low is None ==> low_mark(m) == close_mark(m),
        m.close is None ==> (m.last matches Some(k) ==> close_mark(m) == k),
        m.close is None && m.last is None ==> close_mark(m) == open_mark(m),
        m.open is None ==> (m.close matches Some(k) ==> open_mark(m) == k),
        m.open is None && m.close is None ==> (m.last matches Some(k) ==> open_mark(m) == k),
        m.open is None && m.close is None && m.last is None ==> open_mark(m) == 0,
{
}

/// Whether all prices of the minutes at some places are finite.
pub open spec fn all_finite(rows: Seq<CvdMinute>, parts: Seq<usize>) -> bool {
    forall|p: int|
        0 <= p < parts.len() ==> -KEY_INFINITY < high_mark(rows[#[trigger] parts[p] as int])
            < KEY_INFINITY && -KEY_INFINITY < low_mark(rows[parts[p] as int]) < KEY_INFINITY
}

proof fn lemma_extremes_over(rows: Seq<CvdMinute>, parts: Seq<usize>, n: int)
    requires
        0 <= n <= parts.len(),
        all_finite(rows, parts),
    ensures
        forall|p: int|
            0 <= p < n ==> high_mark(rows[#[trigger] parts[p] as int]) <= high_over(rows, parts, n)
                && low_over(rows, parts, n) <= low_mark(rows[parts[p] as int]),
        n > 0 ==> exists|p: int|
            0 <= p < n && high_mark(rows[#[trigger] parts[p] as int]) == high_over(rows, parts, n),
        n > 0 ==> exists|p: int|
            0 <= p < n && low_mark(rows[#[trigger] parts[p] as int]) == low_over(rows, parts, n),
    decreases n,
{
    if n > 0 {
        lemma_extremes_over(rows, parts, n - 1);
        let last = parts[n - 1] as int;
        assert(-KEY_INFINITY < high_mark(rows[last]) < KEY_INFINITY);
        if n > 1 {
            let h = choose|p: int|
                0 <= p < n - 1 && high_mark(rows[#[trigger] parts[p] as int]) == high_over(
                    rows,
                    parts,
                    n - 1,
                );
            let l = choose|p: int|
                0 <= p < n - 1 && low_mark(rows[#[trigger] parts[p] as int]) == low_over(
                    rows,
                    parts,
                    n - 1,
                );
            assert(high_mark(rows[parts[h] as int]) == high_over(rows, parts, n) || high_mark(
                rows[last],
            ) == high_over(rows, parts, n));
            assert(low_mark(rows[parts[l] as int]) == low_over(rows, parts, n) || low_mark(
                rows[last],
            ) == low_over(rows, parts, n));
        } else {
            assert(high_mark(rows[parts[0] as int]) == high_over(rows, parts, n));
            assert(low_mark(rows[parts[0] as int]) == low_over(rows, parts, n));
        }
    }
}

/// A bar of minutes with finite prices: no minute of it has a high above the high of the bar
/// or a low below its low, each is reached by one of them, it opens where the first opens and
/// closes where the last closes; and its low is no more than its high as long as that is so of
/// each minute.
pub proof fn law_bar_prices(bar: CvdBar, ts: i64, rows: Seq<CvdMinute>, parts: Seq<usize>, p: int)
    requires
        is_bar_of(bar, ts, rows, parts),
        0 <= p < parts.len(),
        all_finite(rows, parts),
    ensures
        bar.ts == ts,
        rows[parts[p] as int].high matches Some(h) ==> h <= bar.high,
        rows[parts[p] as int].low matches Some(l) ==> bar.low <= l,
        exists|q: int|
            0 <= q < parts.len() && high_mark(rows[#[trigger] parts[q] as int]) == bar.high,
        exists|q: int|
            0 <= q < parts.len() && low_mark(rows[#[trigger] parts[q] as int]) == bar.low,
        rows[parts[0] as int].open matches Some(k) ==> bar.open == k,
        rows[parts[parts.len() - 1] as int].close matches Some(k) ==> bar.close == k,
        low_mark(rows[parts[p] as int]) <= high_mark(rows[parts[p] as int]) ==> bar.low <= bar.high,
{
    let n = parts.len() as int;
    lemma_extremes_over(rows, parts, n);
    let h = choose|q: int|
        0 <= q < n && high_mark(rows[#[trigger] parts[q] as int]) == high_over(rows, parts, n);
    let l = choose|q: int|
        0 <= q < n && low_mark(rows[#[trigger] parts[q] as int]) == low_over(rows, parts, n);
    assert(-KEY_INFINITY < high_mark(rows[parts[h] as int]) < KEY_INFINITY);
    assert(-KEY_INFINITY < low_mark(rows[parts[l] as int]) < KEY_INFINITY);
    assert(high_mark(rows[parts[h] as int]) == bar.high);
    assert(low_mark(rows[parts[l] as int]) == bar.low);
    assert(high_mark(rows[parts[p] as int]) <= bar.high);
    assert(bar.low <= low_mark(rows[parts[p] as int]));
}

/// The minutes of a window are those from its start on and before its end, in order.
pub proof fn law_window_minutes(rows: Seq<CvdMinute>, window_start: i64, window_end: i64, i: int)
    requires
        rows.len() <= usize::MAX,
        0 <= i <= usize::MAX,
    ensures
        window_places(rows, window_start, window_end).contains(i as usize) <==> 0 <= i < rows.len()
            && window_start <= rows[i].ts_bucket < window_end,
        forall|a: int, b: int|
            0 <= a < b < window_places(rows, window_start, window_end).len()
                ==> #[trigger] window_places(rows, window_start, window_end)[a]
                < #[trigger] window_places(rows, window_start, window_end)[b],
{
    let ts = history::stamps(rows);
    let found = windows::places_within(
        ts,
        window_start - 1,
        window_end - 1,
        rows.len() as int,
    );
    let places = window_places(rows, window_start, window_end);
    windows::law_places_within(ts, window_start - 1, window_end - 1, rows.len() as int);
    if places.contains(i as usize) {
        let p = choose|p: int| 0 <= p < places.len() && places[p] == i as usize;
        assert(0 <= found[p] < rows.len());
        assert(ts[found[p]] == rows[found[p]].ts_bucket);
    }
    if 0 <= i < rows.len() && window_start <= rows[i].ts_bucket < window_end {
        assert(ts[i] == rows[i].ts_bucket);
        assert(found.contains(i));
        let p = choose|p: int| 0 <= p < found.len() && found[p] == i;
        assert(places[p] == i as usize);
    }
    assert forall|a: int, b: int| 0 <= a < b < places.len() implies #[trigger] places[a]
        < #[trigger] places[b] by {
        assert(found[a] < found[b]);
        assert(0 <= found[a] < rows.len() && 0 <= found[b] < rows.len());
    }
}

/// A day starts at midnight: the day of a whole second is the one that has started and is not
/// over, and the next one that starts no earlier is that day only at midnight itself.
pub proof fn law_days(ts: int)
    requires
        ts % 1_000_000 == 0,
    ensures
        day_floor(ts) % 86_400_000_000 == 0,
        day_floor(ts) <= ts < day_floor(ts) + 86_400_000_000,
        day_ceil(ts) % 86_400_000_000 == 0,
        ts <= day_ceil(ts) < ts + 86_400_000_000,
{
    clock::law_floor(ts, SECOND_US as int);
    assert(clock::floor_spec(ts, SECOND_US as int) == ts) by {
        vstd::arithmetic::div_mod::lemma_fundamental_div_mod(ts, SECOND_US as int);
        vstd::arithmetic::mul::lemma_mul_is_commutative(SECOND_US as int, ts / (SECOND_US as int));
    }
    clock::law_floor(ts, DAY_US as int);
}

/// How the delta of an open window develops is told from six minutes on, with both slopes: it
/// reverses where the slope changed its side, and else accelerates where the slope is now more
/// than one and a half times what it was in size, decelerates where it is less than half of
/// it, as long as it was more than next to nothing.
pub proof fn law_regime(recent: Option<Key>, prev: Option<Slope>, minutes_elapsed: usize)
    ensures
        ({
            let out = regime(recent, prev, minutes_elapsed);
            let told = minutes_elapsed >= 6 && recent is Some && prev is Some;
            let now = recent->0;
            let was = prev->0;
            let down = now < 0 && 0 < was.at;
            let up = 0 < now && was.at < 0;
            let sloped = was.at > KEY_FLAT || was.at < -KEY_FLAT;
            let more = now > was.well_above || -now > was.well_above;
            let less = -was.well_below < now < was.well_below;
            &&& out is InsufficientData <==> !told
            &&& out is ReversalToSelling <==> told && down
            &&& out is ReversalToBuying <==> told && up
            &&& out is Accelerating ==> told && !down && !up && sloped && more
            &&& told && !down && !up && sloped && more && was.well_above >= 0 ==> out is Accelerating
            &&& out is Decelerating ==> told && !down && !up && sloped && less
            &&& told && !down && !up && sloped && less && !more ==> out is Decelerating
            &&& told && !sloped && !down && !up ==> out is Steady
        }),
{
}

/// Bars are paired exactly where both markets have one that ends at the same instant.
pub proof fn law_pairs(fut: Seq<CvdBar>, spot: Seq<CvdBar>, hi: int, f: int, s: int)
    requires
        0 <= hi <= fut.len() <= usize::MAX,
        spot.len() <= usize::MAX,
        0 <= f < fut.len(),
        0 <= s < spot.len(),
        forall|a: int, b: int|
            0 <= a < b < spot.len() ==> (#[trigger] spot[a]).ts < (#[trigger] spot[b]).ts,
    ensures
        pairs(fut, spot, hi).contains((f as usize, s as usize)) <==> f < hi && fut[f].ts
            == spot[s].ts,
    decreases hi,
{
    let all = pairs(fut, spot, hi);
    let wanted = (f as usize, s as usize);
    if hi > 0 {
        law_pairs(fut, spot, hi - 1, f, s);
        let rest = pairs(fut, spot, hi - 1);
        let t = fut[hi - 1].ts;
        if ends_at(spot, t) {
            let b = choose|b: int| 0 <= b < spot.len() && (#[trigger] spot[b]).ts == t;
            assert(all == rest.push(((hi - 1) as usize, b as usize)));
            if rest.contains(wanted) {
                let k = choose|k: int| 0 <= k < rest.len() && rest[k] == wanted;
                assert(all[k] == wanted);
            }
            if f == hi - 1 && fut[f].ts == spot[s].ts {
                assert(s == b) by {
                    if s < b {
                        assert(spot[s].ts < spot[b].ts);
                    }
                    if b < s {
                        assert(spot[b].ts < spot[s].ts);
                    }
                }
                assert(all[all.len() - 1] == wanted);
            }
            if all.contains(wanted) {
                let k = choose|k: int| 0 <= k < all.len() && all[k] == wanted;
                if k < rest.len() {
                    assert(rest[k] == wanted);
                }
            }
        } else {
            if f == hi - 1 {
                assert(spot[s].ts != t);
            }
        }
    }
}

/// An open window starts at a multiple of its length, no later than the minute, and ends a
/// length later, after it. Its minutes are those from its start up to the minute, the last
/// fifteen of them or as many as the window is long are listed.
pub proof fn law_partial_window(
    out: Option<PartialWindow>,
    fut: Seq<CvdMinute>,
    spot: Seq<CvdMinute>,
    ts_bucket: i64,
    interval_mins: i64,
    i: int,
)
    requires
        is_partial_window(out, fut, spot, ts_bucket, interval_mins),
        fut.len() <= usize::MAX,
        0 <= i <= usize::MAX,
        0 < interval_mins <= clock::WINDOW_LIMIT_MINUTES,
        -clock::DATE_LIMIT_US <= ts_bucket <= clock::DATE_LIMIT_US,
        ts_bucket as int % 60_000_000 == 0,
    ensures
        out matches Some(w) ==> {
            &&& w.window_start as int % (interval_mins * 60_000_000) == 0
            &&& w.window_start <= ts_bucket < w.window_end
            &&& w.window_end - w.window_start == interval_mins * 60_000_000
            &&& w.minutes@.contains(i as usize) <==> 0 <= i < fut.len() && w.window_start
                <= fut[i].ts_bucket <= ts_bucket
            &&& w.minutes@.len() > 0 && w.spot@.len() == w.minutes@.len()
            &&& w.minutes@.len() - w.listed_from <= 15
            &&& w.minutes@.len() - w.listed_from <= interval_mins
            &&& w.listed_from > 0 ==> w.minutes@.len() - w.listed_from == 15 || w.minutes@.len()
                - w.listed_from == interval_mins
        },
        out is None && 0 <= i < fut.len() && fut[i].ts_bucket == ts_bucket ==> false,
{
    lemma_open_window(ts_bucket as int, interval_mins as int);
    let end = bar_end(ts_bucket + MINUTE_US, interval_mins as int);
    let start = (end - interval_mins * MINUTE_US) as i64;
    law_window_minutes(fut, start, (ts_bucket + 1) as i64, i);
    let places = window_places(fut, start, (ts_bucket + 1) as i64);
    if out is None && 0 <= i < fut.len() && fut[i].ts_bucket == ts_bucket {
        assert(places.contains(i as usize));
    }
}

proof fn lemma_open_window(ts: int, interval_mins: int)
    requires
        0 < interval_mins <= clock::WINDOW_LIMIT_MINUTES,
        -clock::DATE_LIMIT_US <= ts <= clock::DATE_LIMIT_US,
        ts % 60_000_000 == 0,
    ensures
        ({
            let end = bar_end(ts + MINUTE_US, interval_mins);
            let start = end - interval_mins * MINUTE_US;
            &&& start % (interval_mins * 60_000_000) == 0
            &&& start <= ts < end
            &&& i64::MIN <= start && end <= i64::MAX
        }),
{
    let step = interval_mins * MINUTE_US;
    assert(MINUTE_US <= step <= clock::WINDOW_LIMIT_MINUTES * MINUTE_US) by (nonlinear_arith)
        requires
            0 < interval_mins <= clock::WINDOW_LIMIT_MINUTES,
            step == interval_mins * MINUTE_US,
    ;
    let end = bar_end(ts + MINUTE_US, interval_mins);
    assert((ts + MINUTE_US) % (SECOND_US as int) == 0);
    law_bar_end(ts + MINUTE_US, interval_mins);
    assert((end - step) % step == 0) by {
        vstd::arithmetic::div_mod::lemma_mod_sub_multiples_vanish(end, step);
    }
    // Both ends of the window and the minute are whole minutes.
    assert(end - step <= ts) by {
        vstd::arithmetic::div_mod::lemma_fundamental_div_mod(end, step);
        let q = end / step;
        assert(end - step == (q * interval_mins - interval_mins) * 60_000_000) by (nonlinear_arith)
            requires
                end == step * q,
                step == interval_mins * 60_000_000,
        ;
        let whole = q * interval_mins - interval_mins;
        assert(end - step < ts + 60_000_000);
        assert(end - step == whole * 60_000_000);
    }
}

/// The slope of next to nothing: a millionth of a millionth.
pub proof fn law_thresholds()
    ensures
        order::is_nearest(KEY_FLAT, 1, 1_000_000_000_000),
{
    order::lemma_powers_of_two();
}

/// The recent window of some minutes ends with the minute and starts as many before. It counts
/// the minutes of each market from its start on and before its end, misses the rest, is ready
/// where it misses none, and has a bar of each market that has a minute.
pub proof fn law_current_window(
    out: CurrentWindow,
    fut: Seq<CvdMinute>,
    spot: Seq<CvdMinute>,
    ts_bucket: i64,
    interval_mins: i64,
    i: int,
)
    requires
        is_current_window(out, fut, spot, ts_bucket, interval_mins),
        interval_mins > 0,
        fut.len() <= usize::MAX,
        spot.len() <= usize::MAX,
        0 <= i < fut.len(),
        i < spot.len(),
    ensures
        out.window_end == ts_bucket + 60_000_000,
        out.window_end - out.window_start == interval_mins * 60_000_000,
        out.observed_minutes_fut + out.missing_minutes_fut == interval_mins,
        out.observed_minutes_spot + out.missing_minutes_spot == interval_mins,
        out.is_ready <==> out.observed_minutes_fut >= interval_mins && out.observed_minutes_spot
            >= interval_mins,
        out.window_start <= fut[i].ts_bucket < out.window_end ==> out.observed_minutes_fut > 0
            && out.fut is Some,
        out.window_start <= spot[i].ts_bucket < out.window_end ==> out.observed_minutes_spot > 0
            && out.spot is Some,
        out.fut is None ==> out.observed_minutes_fut == 0,
        out.spot is None ==> out.observed_minutes_spot == 0,
        out.fut matches Some(bar) ==> bar.ts == out.window_end,
        out.spot matches Some(bar) ==> bar.ts == out.window_end,
{
    law_window_minutes(fut, out.window_start, out.window_end, i);
    law_window_minutes(spot, out.window_start, out.window_end, i);
}

/// The windows of a quarter of an hour, of four hours and of a day are also reported while
/// they are open, and no others are.
pub proof fn law_open_windows(
    out: CvdWindow,
    w: int,
    fut: Seq<CvdMinute>,
    spot: Seq<CvdMinute>,
    ts_bucket: i64,
)
    requires
        0 <= w < 8,
        is_window_report(out, spec_windows()[w].0, spec_windows()[w].1, fut, spot, ts_bucket),
    ensures
        out.minutes == clock::named_minutes(out.label@),
        out.label@ == "15m"@ || out.label@ == "4h"@ || out.label@ == "1d"@ ==> is_partial_window(
            out.partial,
            fut,
            spot,
            ts_bucket,
            out.minutes,
        ),
        out.label@ != "15m"@ && out.label@ != "4h"@ && out.label@ != "1d"@ ==> out.partial is None,
{
    clock::lemma_named_minutes();
}

/// A minute of an open window stands beside the last spot minute of the same second in that
/// window up to now, and beside none where there is no such minute.
pub proof fn law_spot_place(
    rows: Seq<CvdMinute>,
    window_start: i64,
    ts_bucket: i64,
    ts: i64,
    hi: int,
    j: int,
)
    requires
        0 <= j < hi <= rows.len(),
        ts as int % 1_000_000 == 0,
        forall|i: int| 0 <= i < rows.len() ==> (#[trigger] rows[i]).ts_bucket as int % 1_000_000 == 0,
    ensures
        spot_place(rows, window_start, ts_bucket, ts, hi) matches Some(i) ==> 0 <= i < hi
            && rows[i].ts_bucket == ts && window_start <= ts <= ts_bucket && (j > i
            ==> rows[j].ts_bucket != ts),
        spot_place(rows, window_start, ts_bucket, ts, hi) is None && window_start <= ts <= ts_bucket
            ==> rows[j].ts_bucket != ts,
    decreases hi,
{
    let last = rows[hi - 1].ts_bucket as int;
    clock::law_floor(last, SECOND_US as int);
    clock::law_floor(ts as int, SECOND_US as int);
    assert(clock::floor_spec(last, SECOND_US as int) == last) by {
        vstd::arithmetic::div_mod::lemma_fundamental_div_mod(last, SECOND_US as int);
    }
    assert(clock::floor_spec(ts as int, SECOND_US as int) == ts) by {
        vstd::arithmetic::div_mod::lemma_fundamental_div_mod(ts as int, SECOND_US as int);
    }
    if hi > 1 {
        law_spot_place(
            rows,
            window_start,
            ts_bucket,
            ts,
            hi - 1,
            if j < hi - 1 {
                j
            } else {
                0
            },
        );
    } else {
        assert(spot_place(rows, window_start, ts_bucket, ts, 0) is None);
    }
}

/// The size of a number is not negative and is that of its opposite.
pub proof fn law_size(key: Key)
    ensures
        size(key) >= 0,
        size(key) == key || size(key) == -key,
{
}

/// Each regime of an open window has a name of its own.
pub proof fn law_regime_names(r: PartialRegime)
    ensures
        r.spec_name() == "insufficient_data"@ <==> r is InsufficientData,
        r.spec_name() == "reversal_to_selling"@ <==> r is ReversalToSelling,
        r.spec_name() == "reversal_to_buying"@ <==> r is ReversalToBuying,
        r.spec_name() == "accelerating"@ <==> r is Accelerating,
        r.spec_name() == "decelerating"@ <==> r is Decelerating,
        r.spec_name() == "steady"@ <==> r is Steady,
{
    reveal_strlit("insufficient_data");
    reveal_strlit("reversal_to_selling");
    reveal_strlit("reversal_to_buying");
    reveal_strlit("accelerating");
    reveal_strlit("decelerating");
    reveal_strlit("steady");
    assert("insufficient_data"@.len() == 17 && "insufficient_data"@[0] == 'i');
    assert("reversal_to_selling"@.len() == 19 && "reversal_to_selling"@[0] == 'r');
    assert("reversal_to_buying"@.len() == 18 && "reversal_to_buying"@[0] == 'r');
    assert("accelerating"@.len() == 12 && "accelerating"@[0] == 'a');
    assert("decelerating"@.len() == 12 && "decelerating"@[0] == 'd');
    assert("steady"@.len() == 6 && "steady"@[0] == 's');
}

} // verus!
