//! Anchored volume-weighted average prices of both markets over several windows.

use crate::clock;
use crate::clock::{floor_to, is_on_step, DAY_US, MINUTE_US, SECOND_US};
use crate::history;
use crate::history::{lower_bound, plan_sync, upper_bound, Stamped, SyncPlan};
#[allow(unused_imports)]
use crate::order;
use crate::order::Key;
use crate::rolling;
use crate::rolling::Trail;
use crate::text;
use crate::text::decimal;
use vstd::prelude::*;
use vstd::string::StringExecFns;

verus! {

/// How many days the main window looks back.
pub const AVWAP_LOOKBACK_DAYS: i64 = 7;

/// How many minutes the main window looks back.
pub const AVWAP_LOOKBACK_MINUTES: i64 = 10_080;

/// How many days of minutes are held: as many as the longest window looks back.
pub const AVWAP_MEMORY_DAYS: i64 = 30;

/// The order key of 1e-12, up to which a volume counts as none.
pub const KEY_NO_VOLUME: i64 = 0x3D71_9799_812D_EA11;

/// The fewest gaps that a gap is compared with.
pub const MIN_GAPS: usize = 10;

/// What a minute of one market adds to the averages, as far as rules rest on it.
#[derive(Clone, Copy, Debug, PartialEq, Eq)]
pub struct AvwapMinute {
    pub ts_bucket: i64,
    pub total_qty: Key,
}

impl Stamped for AvwapMinute {
    open spec fn at(&self) -> i64 {
        self.ts_bucket
    }

    fn ts(&self) -> (out: i64) {
        self.ts_bucket
    }
}

/// The windows that are reported, by name and minutes.
pub open spec fn spec_windows() -> Seq<(Seq<char>, i64)> {
    seq![
        ("15m"@, 15i64),
        ("1h"@, 60i64),
        ("4h"@, 240i64),
        ("1d"@, 1440i64),
        ("3d"@, 4320i64),
        ("7d"@, 10_080i64),
        ("30d"@, 43_200i64),
    ]
}

/// The windows that are reported, by name and minutes.
pub fn windows() -> (out: [(&'static str, i64); 7])
    ensures
        forall|i: int|
            0 <= i < 7 ==> (#[trigger] out@[i]).0@ == spec_windows()[i].0 && out@[i].1
                == spec_windows()[i].1,
{
    [
        ("15m", 15),
        ("1h", 60),
        ("4h", 240),
        ("1d", 1440),
        ("3d", 4320),
        ("7d", 10_080),
        ("30d", 43_200),
    ]
}

/// A lookback of at least one minute.
pub open spec fn at_least_one(minutes: i64) -> int {
    if minutes < 1 {
        1
    } else {
        minutes as int
    }
}

fn one_or_more(minutes: i64) -> (out: i64)
    ensures
        out == at_least_one(minutes),
{
    if minutes < 1 {
        1
    } else {
        minutes
    }
}

/// Where a window of some minutes up to a minute starts.
pub fn avwap_window_start(ts_bucket: i64, lookback_minutes: i64) -> (out: i64)
    requires
        clock::is_instant(ts_bucket),
        lookback_minutes <= clock::WINDOW_LIMIT_MINUTES,
    ensures
        out == ts_bucket - at_least_one(lookback_minutes) * MINUTE_US,
{
    ts_bucket - one_or_more(lookback_minutes) * MINUTE_US
}

/// Where the main window starts.
pub fn avwap_lookback_start(ts_bucket: i64) -> (out: i64)
    requires
        clock::is_instant(ts_bucket),
    ensures
        out == ts_bucket - 7 * DAY_US,
{
    avwap_window_start(ts_bucket, AVWAP_LOOKBACK_MINUTES)
}

/// The rows of a window: from the first that is not before the minute after its start to
/// the last that is not after its end, as bisection finds them.
pub open spec fn window_slice<T: Stamped>(rows: Seq<T>, start: int, end: i64) -> Seq<T> {
    let ts = history::stamps(rows);
    let from = history::first_at_or_after(ts, (start + MINUTE_US) as i64);
    let to = history::first_at_or_after(ts, (end + 1) as i64);
    if from >= to {
        Seq::empty()
    } else {
        rows.subrange(from, to)
    }
}

/// The rows of a window.
fn history_window_slice<'a, T: Stamped>(rows: &'a [T], lookback_start: i64, end_ts: i64) -> (out:
    &'a [T])
    requires
        -9_222_000_000_000_000_000 <= lookback_start <= 9_222_000_000_000_000_000,
        clock::is_instant(end_ts),
    ensures
        out@ == window_slice(rows@, lookback_start as int, end_ts),
{
    let from: usize = lower_bound(rows, lookback_start + MINUTE_US);
    let to: usize = upper_bound(rows, end_ts);
    if from >= to {
        let out = vstd::slice::slice_subrange(rows, 0, 0);
        assert(out@ =~= Seq::<T>::empty());
        out
    } else {
        vstd::slice::slice_subrange(rows, from, to)
    }
}

/// The rows of both markets in a window of some minutes up to a minute.
pub fn avwap_window_slices<'a, T: Stamped>(
    fut_history: &'a [T],
    spot_history: &'a [T],
    ts_bucket: i64,
    lookback_minutes: i64,
) -> (out: (&'a [T], &'a [T]))
    requires
        clock::is_instant(ts_bucket),
        lookback_minutes <= clock::WINDOW_LIMIT_MINUTES,
    ensures
        ({
            let start = ts_bucket - at_least_one(lookback_minutes) * MINUTE_US;
            &&& out.0@ == window_slice(fut_history@, start, ts_bucket)
            &&& out.1@ == window_slice(spot_history@, start, ts_bucket)
        }),
{
    let start: i64 = avwap_window_start(ts_bucket, lookback_minutes);
    (
        history_window_slice(fut_history, start, ts_bucket),
        history_window_slice(spot_history, start, ts_bucket),
    )
}

/// The rows of both markets in the main window.
pub fn avwap_lookback_window_slices<'a, T: Stamped>(
    fut_history: &'a [T],
    spot_history: &'a [T],
    ts_bucket: i64,
) -> (out: (&'a [T], &'a [T]))
    requires
        clock::is_instant(ts_bucket),
    ensures
        out.0@ == window_slice(fut_history@, ts_bucket - 7 * DAY_US, ts_bucket),
        out.1@ == window_slice(spot_history@, ts_bucket - 7 * DAY_US, ts_bucket),
{
    avwap_window_slices(fut_history, spot_history, ts_bucket, AVWAP_LOOKBACK_MINUTES)
}

/// The rows of both markets in the window of seven days.
pub fn avwap_7d_window_slices<'a, T: Stamped>(
    fut_history: &'a [T],
    spot_history: &'a [T],
    ts_bucket: i64,
) -> (out: (&'a [T], &'a [T]))
    requires
        clock::is_instant(ts_bucket),
    ensures
        out.0@ == window_slice(fut_history@, ts_bucket - 7 * DAY_US, ts_bucket),
        out.1@ == window_slice(spot_history@, ts_bucket - 7 * DAY_US, ts_bucket),
{
    avwap_lookback_window_slices(fut_history, spot_history, ts_bucket)
}

/// Over a history in order a window holds exactly the rows from the minute after its
/// start up to its end.
pub proof fn law_window_slice<T: Stamped>(rows: Seq<T>, start: int, end: i64)
    requires
        history::in_order(history::stamps(rows)),
        -9_222_000_000_000_000_000 <= start <= 9_222_000_000_000_000_000,
        clock::is_instant(end),
        start + MINUTE_US <= end + 1,
    ensures
        exists|from: int, to: int|
            {
                &&& 0 <= from <= to <= rows.len()
                &&& window_slice(rows, start, end) == #[trigger] rows.subrange(from, to)
                &&& forall|i: int|
                    0 <= i < rows.len() ==> (from <= i < to <==> start + MINUTE_US <= (
                    #[trigger] rows[i]).at() <= end)
            },
{
    let ts = history::stamps(rows);
    let a = (start + MINUTE_US) as i64;
    let b = (end + 1) as i64;
    history::lemma_first_at_or_after(ts, a);
    history::lemma_first_at_or_after(ts, b);
    let from = history::first_at_or_after(ts, a);
    let to = history::first_at_or_after(ts, b);
    assert(from <= to) by {
        if from > to {
            assert(ts[to] < a);
            assert(ts[to] >= b);
        }
    }
    assert(window_slice(rows, start, end) =~= rows.subrange(from, to));
    assert forall|i: int| 0 <= i < rows.len() implies (from <= i < to <==> start + MINUTE_US <= (
    #[trigger] rows[i]).at() <= end) by {
        assert(ts[i] == rows[i].at());
        assert(ts[i] < a <==> i < from);
        assert(ts[i] < b <==> i < to);
    }
}

/// The name of a lookback.
pub open spec fn window_code(lookback_minutes: i64) -> Seq<char> {
    let m = at_least_one(lookback_minutes);
    if m == 1 {
        "1m"@
    } else if m == 5 {
        "5m"@
    } else if m == 15 {
        "15m"@
    } else if m == 60 {
        "1h"@
    } else if m == 240 {
        "4h"@
    } else if m == 1440 {
        "1d"@
    } else if m == 4320 {
        "3d"@
    } else if m == 10_080 {
        "7d"@
    } else if m == 43_200 {
        "30d"@
    } else {
        text::digits(m as nat) + "m"@
    }
}

/// The name of a lookback.
pub fn avwap_window_code(lookback_minutes: i64) -> (out: String)
    ensures
        out@ == window_code(lookback_minutes),
{
    let m: i64 = one_or_more(lookback_minutes);
    if m == 1 {
        "1m".to_owned()
    } else if m == 5 {
        "5m".to_owned()
    } else if m == 15 {
        "15m".to_owned()
    } else if m == 60 {
        "1h".to_owned()
    } else if m == 240 {
        "4h".to_owned()
    } else if m == 1440 {
        "1d".to_owned()
    } else if m == 4320 {
        "3d".to_owned()
    } else if m == 10_080 {
        "7d".to_owned()
    } else if m == 43_200 {
        "30d".to_owned()
    } else {
        decimal(m as u64).concat("m")
    }
}

/// Names tell lookbacks apart: two different ones of a minute or more have different
/// names, and one of no minutes goes by the name of one minute.
pub proof fn law_window_codes_differ(a: i64, b: i64)
    ensures
        a >= 1 && b >= 1 && a != b ==> window_code(a) != window_code(b),
        a < 1 ==> window_code(a) == window_code(1),
{
    reveal_strlit("1m");
    reveal_strlit("5m");
    reveal_strlit("15m");
    reveal_strlit("1h");
    reveal_strlit("4h");
    reveal_strlit("1d");
    reveal_strlit("3d");
    reveal_strlit("7d");
    reveal_strlit("30d");
    reveal_strlit("m");
    if a >= 1 && b >= 1 && a != b {
        let x = window_code(a);
        let y = window_code(b);
        lemma_minutes_in_code(a);
        lemma_minutes_in_code(b);
        if x == y {
            text::law_digits(a as nat, b as nat);
            assert(x.drop_last() == y.drop_last());
            assert(x.last() == y.last());
            assert(x[0] == y[0]);
            assert(x[x.len() - 1] == y[y.len() - 1]);
        }
    }
}

/// A name that ends in the letter of minutes starts with their number; the others are
/// known one by one.
proof fn lemma_minutes_in_code(m: i64)
    requires
        m >= 1,
    ensures
        window_code(m).len() > 0,
        (m == 60 || m == 240 || m == 1440 || m == 4320 || m == 10_080 || m == 43_200) <==> window_code(
            m,
        ).last() != 'm',
        window_code(m).last() == 'm' ==> window_code(m).drop_last() == text::digits(m as nat),
{
    reveal_strlit("1m");
    reveal_strlit("5m");
    reveal_strlit("15m");
    reveal_strlit("1h");
    reveal_strlit("4h");
    reveal_strlit("1d");
    reveal_strlit("3d");
    reveal_strlit("7d");
    reveal_strlit("30d");
    reveal_strlit("m");
    if m == 1 || m == 5 {
        assert(window_code(m).drop_last() =~= text::digits(m as nat));
    } else if m == 15 {
        assert(text::digits(1) =~= seq!['1']);
        assert(text::digits(15) =~= text::digits(1).push('5'));
        assert(window_code(m).drop_last() =~= text::digits(15));
    } else if window_code(m).last() == 'm' {
        assert(window_code(m).drop_last() =~= text::digits(m as nat));
    }
}

/// What is measured of a window.
#[derive(Clone, Copy, Debug, PartialEq, Eq)]
pub struct AvwapMeasure {
    pub fut_last_price: Option<Key>,
    pub fut_mark_price: Option<Key>,
    pub avwap_fut: Option<Key>,
    pub avwap_spot: Option<Key>,
    /// The last price less the average of the futures market.
    pub last_minus_fut: Key,
    /// The last price less the average of the spot market.
    pub last_minus_spot: Key,
    /// The mark price less the average of the spot market.
    pub mark_minus_spot: Key,
}

/// What is reported of a window.
#[derive(Clone, Debug, PartialEq, Eq)]
pub struct AvwapWindowSnapshot {
    pub window_code: String,
    pub lookback_minutes: i64,
    pub anchor_ts: i64,
    pub observed_minutes: usize,
    pub missing_minutes: i64,
    pub is_ready: bool,
    pub price_minus_avwap_fut: Option<Key>,
    pub price_minus_spot_avwap_fut: Option<Key>,
    pub price_minus_spot_avwap_futmark: Option<Key>,
}

/// The second value where both the first ones are known.
pub open spec fn with_both(a: Option<Key>, b: Option<Key>, value: Key) -> Option<Key> {
    if a is Some && b is Some {
        Some(value)
    } else {
        None
    }
}

fn both(a: Option<Key>, b: Option<Key>, value: Key) -> (out: Option<Key>)
    ensures
        out == with_both(a, b, value),
{
    if a.is_some() && b.is_some() {
        Some(value)
    } else {
        None
    }
}

/// What is reported of a window.
pub fn avwap_window_snapshot(
    window_code: &str,
    lookback_minutes: i64,
    anchor_ts: i64,
    observed_minutes: usize,
    measure: &AvwapMeasure,
) -> (out: AvwapWindowSnapshot)
    requires
        observed_minutes <= i64::MAX,
    ensures
        out.window_code@ == window_code@,
        out.lookback_minutes == at_least_one(lookback_minutes),
        out.anchor_ts == anchor_ts,
        out.observed_minutes == observed_minutes,
        out.missing_minutes == at_least_one(lookback_minutes) - observed_minutes,
        out.is_ready == (observed_minutes == at_least_one(lookback_minutes)),
        out.price_minus_avwap_fut == with_both(
            measure.fut_last_price,
            measure.avwap_fut,
            measure.last_minus_fut,
        ),
        out.price_minus_spot_avwap_fut == with_both(
            measure.fut_last_price,
            measure.avwap_spot,
            measure.last_minus_spot,
        ),
        out.price_minus_spot_avwap_futmark == with_both(
            measure.fut_mark_price,
            measure.avwap_spot,
            measure.mark_minus_spot,
        ),
{
    let lookback_minutes: i64 = one_or_more(lookback_minutes);
    let missing_minutes: i64 = lookback_minutes - observed_minutes as i64;
    AvwapWindowSnapshot {
        window_code: window_code.to_owned(),
        lookback_minutes,
        anchor_ts,
        observed_minutes,
        missing_minutes,
        is_ready: missing_minutes == 0,
        price_minus_avwap_fut: both(
            measure.fut_last_price,
            measure.avwap_fut,
            measure.last_minus_fut,
        ),
        price_minus_spot_avwap_fut: both(
            measure.fut_last_price,
            measure.avwap_spot,
            measure.last_minus_spot,
        ),
        price_minus_spot_avwap_futmark: both(
            measure.fut_mark_price,
            measure.avwap_spot,
            measure.mark_minus_spot,
        ),
    }
}

/// The places from `lo` on and before `hi` at which both markets traded, the latest
/// first.
pub open spec fn traded_places(
    fut: Seq<AvwapMinute>,
    spot: Seq<AvwapMinute>,
    lo: int,
    hi: int,
) -> Seq<usize>
    decreases hi - lo,
{
    if lo >= hi {
        Seq::empty()
    } else if fut[lo].total_qty > 0 && spot[lo].total_qty > 0 {
        traded_places(fut, spot, lo + 1, hi).push(lo as usize)
    } else {
        traded_places(fut, spot, lo + 1, hi)
    }
}

/// The places that the gap between the markets is compared over, the latest first; none
/// where there are fewer than ten.
pub fn gap_places(fut: &[AvwapMinute], spot: &[AvwapMinute]) -> (out: Option<Vec<usize>>)
    ensures
        ({
            let all = traded_places(
                fut@,
                spot@,
                0,
                history::shorter(fut@.len(), spot@.len()),
            );
            match out {
                None => all.len() < 10,
                Some(places) => all.len() >= 10 && places@ == all,
            }
        }),
{
    let n: usize = if fut.len() < spot.len() {
        fut.len()
    } else {
        spot.len()
    };
    let mut places: Vec<usize> = Vec::new();
    let mut i: usize = n;
    while i > 0
        invariant
            i <= n,
            n == history::shorter(fut@.len(), spot@.len()),
            places@ == traded_places(fut@, spot@, i as int, n as int),
        decreases i,
    {
        i -= 1;
        if fut[i].total_qty > 0 && spot[i].total_qty > 0 {
            places.push(i);
        }
    }
    if places.len() < MIN_GAPS {
        None
    } else {
        Some(places)
    }
}

/// Whether bars of some minutes start at an instant, to the second.
pub open spec fn is_anchor(ts: int, minutes: int) -> bool {
    clock::on_step(clock::floor_spec(ts, SECOND_US as int), minutes * MINUTE_US)
}

/// Whether bars of some minutes start at an instant.
pub fn anchors(ts: i64, minutes: i64) -> (out: bool)
    requires
        -clock::INSTANT_LIMIT_US + SECOND_US <= ts <= clock::INSTANT_LIMIT_US,
        0 < minutes <= clock::WINDOW_LIMIT_MINUTES,
    ensures
        out == is_anchor(ts as int, minutes as int),
{
    is_on_step(floor_to(ts, SECOND_US), minutes * MINUTE_US)
}

/// The point of a series at the row `at`: it averages over the rows from `from` to it.
#[derive(Clone, Copy, Debug, PartialEq, Eq)]
pub struct SeriesPoint {
    pub at: usize,
    pub from: usize,
}

/// The points of a series over the first `hi` rows.
pub open spec fn series_points(
    ts: Seq<i64>,
    lookback_minutes: i64,
    sample_minutes: i64,
    hi: int,
) -> Seq<SeriesPoint>
    decreases hi,
{
    if hi <= 0 {
        Seq::empty()
    } else {
        let rest = series_points(ts, lookback_minutes, sample_minutes, hi - 1);
        if is_anchor(ts[hi - 1] as int, sample_minutes as int) {
            rest.push(
                SeriesPoint {
                    at: (hi - 1) as usize,
                    from: history::first_at_or_after(
                        ts,
                        (ts[hi - 1] - lookback_minutes * MINUTE_US + MINUTE_US) as i64,
                    ) as usize,
                },
            )
        } else {
            rest
        }
    }
}

/// The points of a series: one at each row where a bar of `sample_minutes` starts,
/// averaging over the window of `lookback_minutes` up to it. The rows are those of the
/// ends of both histories, cut to the shorter one, with the instants of the futures
/// history.
pub fn build_series(
    fut_history: &[AvwapMinute],
    spot_history: &[AvwapMinute],
    lookback_minutes: i64,
    sample_minutes: i64,
) -> (out: Vec<SeriesPoint>)
    requires
        lookback_minutes <= clock::WINDOW_LIMIT_MINUTES,
        sample_minutes <= clock::WINDOW_LIMIT_MINUTES,
        forall|i: int|
            0 <= i < fut_history@.len() ==> -clock::INSTANT_LIMIT_US + SECOND_US <= (
            #[trigger] fut_history@[i]).ts_bucket <= clock::INSTANT_LIMIT_US,
    ensures
        ({
            let n = history::shorter(fut_history@.len(), spot_history@.len());
            let rows = history::tail(fut_history@, n);
            out@ == if lookback_minutes <= 0 || sample_minutes <= 0 {
                Seq::empty()
            } else {
                series_points(history::stamps(rows), lookback_minutes, sample_minutes, n)
            }
        }),
{
    let mut out: Vec<SeriesPoint> = Vec::new();
    if lookback_minutes <= 0 || sample_minutes <= 0 {
        return out;
    }
    let (rows, _) = history::aligned_event_histories(fut_history, spot_history);
    let n: usize = rows.len();
    let ghost ts = history::stamps(rows@);
    proof {
        assert forall|i: int| 0 <= i < rows@.len() implies -clock::INSTANT_LIMIT_US + SECOND_US <= (
        #[trigger] rows@[i]).ts_bucket <= clock::INSTANT_LIMIT_US by {
            assert(rows@[i] == fut_history@[fut_history@.len() - n + i]);
        }
    }
    let mut i: usize = 0;
    while i < n
        invariant
            i <= n,
            n == rows@.len(),
            ts == history::stamps(rows@),
            0 < lookback_minutes <= clock::WINDOW_LIMIT_MINUTES,
            0 < sample_minutes <= clock::WINDOW_LIMIT_MINUTES,
            forall|j: int|
                0 <= j < rows@.len() ==> -clock::INSTANT_LIMIT_US + SECOND_US <= (
                #[trigger] rows@[j]).ts_bucket <= clock::INSTANT_LIMIT_US,
            out@ == series_points(ts, lookback_minutes, sample_minutes, i as int),
        decreases n - i,
    {
        let t: i64 = rows[i].ts_bucket;
        assert(ts[i as int] == t);
        if anchors(t, sample_minutes) {
            let from: usize = lower_bound(rows, t - lookback_minutes * MINUTE_US + MINUTE_US);
            out.push(SeriesPoint { at: i, from });
        }
        i += 1;
    }
    out
}

/// The anchored average price indicator.
pub struct I18Avwap;

impl I18Avwap {
    /// The code of the indicator.
    pub fn code(&self) -> (out: &'static str)
        ensures
            out@ == "avwap"@,
    {
        "avwap"
    }

    /// What is observed of each reported window: the rows of both markets.
    pub fn evaluate<'a>(
        &self,
        fut_history: &'a [AvwapMinute],
        spot_history: &'a [AvwapMinute],
        ts_bucket: i64,
    ) -> (out: Vec<(&'a [AvwapMinute], &'a [AvwapMinute])>)
        requires
            clock::is_instant(ts_bucket),
        ensures
            out@.len() == 7,
            forall|w: int|
                0 <= w < 7 ==> {
                    let start = ts_bucket - spec_windows()[w].1 * MINUTE_US;
                    &&& (#[trigger] out@[w]).0@ == window_slice(fut_history@, start, ts_bucket)
                    &&& out@[w].1@ == window_slice(spot_history@, start, ts_bucket)
                },
    {
        let all = windows();
        let mut out: Vec<(&'a [AvwapMinute], &'a [AvwapMinute])> = Vec::new();
        let mut w: usize = 0;
        while w < 7
            invariant
                w <= 7,
                clock::is_instant(ts_bucket),
                forall|i: int| 0 <= i < 7 ==> (#[trigger] all@[i]).1 == spec_windows()[i].1,
                out@.len() == w,
                forall|i: int|
                    0 <= i < w ==> {
                        let start = ts_bucket - spec_windows()[i].1 * MINUTE_US;
                        &&& (#[trigger] out@[i]).0@ == window_slice(
                            fut_history@,
                            start,
                            ts_bucket,
                        )
                        &&& out@[i].1@ == window_slice(spot_history@, start, ts_bucket)
                    },
            decreases 7 - w,
        {
            let minutes: i64 = all[w].1;
            assert(all@[w as int].1 == spec_windows()[w as int].1);
            out.push(avwap_window_slices(fut_history, spot_history, ts_bucket, minutes));
            w += 1;
        }
        out
    }
}

/// The minutes of a window.
fn minutes_of(w: usize) -> (out: i64)
    requires
        w < 7,
    ensures
        out == spec_windows()[w as int].1,
        0 < out <= 43_200,
{
    let all = windows();
    assert(all@[w as int].1 == spec_windows()[w as int].1);
    all[w].1
}

/// What is held while minutes come in.
pub struct AvwapModel {
    /// The minutes of the last thirty days.
    pub contributions: Seq<i64>,
    /// Those of them in which both markets traded.
    pub gaps: Seq<i64>,
    /// For each window the instants of the points of its series.
    pub series: Seq<Seq<i64>>,
    /// The last minute.
    pub last_ts: Option<i64>,
}

/// Nothing held.
pub open spec fn no_minutes() -> AvwapModel {
    AvwapModel {
        contributions: Seq::empty(),
        gaps: Seq::empty(),
        series: Seq::new(7, |w: int| Seq::<i64>::empty()),
        last_ts: None,
    }
}

/// Whether both markets traded in a minute.
pub open spec fn has_gap(fut: AvwapMinute, spot: AvwapMinute) -> bool {
    fut.total_qty > KEY_NO_VOLUME && spot.total_qty > KEY_NO_VOLUME
}

/// What is held after one more minute: what lies thirty days back or more is forgotten,
/// and each series whose bars start with the minute gets a point.
pub open spec fn taken(m: AvwapModel, fut: AvwapMinute, spot: AvwapMinute) -> AvwapModel {
    let ts = fut.ts_bucket;
    let cutoff = ts - AVWAP_MEMORY_DAYS * DAY_US;
    AvwapModel {
        contributions: rolling::rolled(m.contributions, ts, cutoff),
        gaps: if has_gap(fut, spot) {
            rolling::rolled(m.gaps, ts, cutoff)
        } else {
            history::drop_while(m.gaps, rolling::is_upto(cutoff))
        },
        series: Seq::new(
            7,
            |w: int|
                if is_anchor(ts as int, spec_windows()[w].1 as int) {
                    rolling::rolled(m.series[w], ts, cutoff)
                } else {
                    m.series[w]
                },
        ),
        last_ts: Some(ts),
    }
}

/// The place among held instants from which on they are in a window up to the last minute.
pub open spec fn place_in(held: Seq<i64>, last: i64, w: int) -> int {
    history::first_at_or_after(held, (last - spec_windows()[w].1 * MINUTE_US + MINUTE_US) as i64)
}

/// The place among the held minutes from which on they are in a window up to the last one.
pub open spec fn window_place(m: AvwapModel, w: int) -> int {
    match m.last_ts {
        Some(last) => place_in(m.contributions, last, w),
        None => 0,
    }
}

/// The place among the held gaps from which on they are in a window up to the last minute.
pub open spec fn gap_place(m: AvwapModel, w: int) -> int {
    match m.last_ts {
        Some(last) => place_in(m.gaps, last, w),
        None => 0,
    }
}

/// What is held after the rows of both markets from place `from` on and before `to` came
/// in one by one.
pub open spec fn followed(
    m: AvwapModel,
    fut: Seq<AvwapMinute>,
    spot: Seq<AvwapMinute>,
    to: int,
) -> AvwapModel
    decreases to,
{
    if to <= 0 {
        m
    } else {
        taken(followed(m, fut, spot, to - 1), fut[to - 1], spot[to - 1])
    }
}

/// What is held after whole histories came in, as far as both have rows.
pub open spec fn rebuilt(fut: Seq<AvwapMinute>, spot: Seq<AvwapMinute>) -> AvwapModel {
    followed(no_minutes(), fut, spot, history::shorter(fut.len(), spot.len()))
}

/// What is held after a state was brought up to the end of two histories: with the rows
/// after its last minute, if both have as many of them; else from the start.
pub open spec fn synced(
    m: AvwapModel,
    fut: Seq<AvwapMinute>,
    spot: Seq<AvwapMinute>,
) -> AvwapModel {
    match history::sync_plan(history::stamps(fut), m.last_ts) {
        SyncPlan::Rebuild => rebuilt(fut, spot),
        SyncPlan::Nothing => m,
        SyncPlan::From(a) => {
            let b = history::first_at_or_after(
                history::stamps(spot),
                (m.last_ts->0 + MINUTE_US) as i64,
            );
            if fut.len() - a != spot.len() - b {
                rebuilt(fut, spot)
            } else {
                followed(
                    m,
                    fut.subrange(a as int, fut.len() as int),
                    spot.subrange(b, spot.len() as int),
                    fut.len() - a,
                )
            }
        },
    }
}

/// What one minute changed: what is to be added to the running sums and what is to be
/// taken out of them, oldest first.
#[derive(Clone, Debug, PartialEq, Eq)]
pub struct AvwapStep {
    /// How many of the oldest minutes fell out.
    pub dropped: usize,
    /// Whether both markets traded in the minute.
    pub has_gap: bool,
    /// How many of the oldest gaps fell out.
    pub gaps_dropped: usize,
    /// For each window whether its series got a point.
    pub anchored: Vec<bool>,
    /// For each window how many of the oldest points of its series fell out.
    pub points_dropped: Vec<usize>,
    /// For each window the place among the minutes now held from which on they are in it.
    pub window_from: Vec<usize>,
}

/// Whether a step says what changed between two models.
pub open spec fn is_step(
    step: AvwapStep,
    before: AvwapModel,
    after: AvwapModel,
    fut: AvwapMinute,
    spot: AvwapMinute,
) -> bool {
    &&& step.dropped == before.contributions.len() + 1 - after.contributions.len()
    &&& step.has_gap == has_gap(fut, spot)
    &&& step.gaps_dropped == before.gaps.len() + (if step.has_gap {
        1int
    } else {
        0
    }) - after.gaps.len()
    &&& step.anchored@.len() == 7
    &&& step.points_dropped@.len() == 7
    &&& step.window_from@.len() == 7
    &&& forall|w: int| 0 <= w < 7 ==> (#[trigger] step.window_from@[w]) == window_place(after, w)
    &&& forall|w: int|
        0 <= w < 7 ==> (#[trigger] step.anchored@[w]) == is_anchor(
            fut.ts_bucket as int,
            spec_windows()[w].1 as int,
        )
    &&& forall|w: int|
        0 <= w < 7 ==> (#[trigger] step.points_dropped@[w]) == before.series[w].len() + (
        if step.anchored@[w] {
            1int
        } else {
            0
        }) - after.series[w].len()
}

/// The running state of the anchored averages.
#[derive(Clone, Debug)]
pub struct AvwapState {
    contributions: Trail,
    gaps: Trail,
    series: Vec<Trail>,
    last_ts: Option<i64>,
}

impl View for AvwapState {
    type V = AvwapModel;

    closed spec fn view(&self) -> AvwapModel {
        AvwapModel {
            contributions: self.contributions@,
            gaps: self.gaps@,
            series: Seq::new(self.series@.len(), |w: int| self.series@[w]@),
            last_ts: self.last_ts,
        }
    }
}

impl AvwapState {
    /// One series for each window.
    pub closed spec fn well_formed(&self) -> bool {
        &&& self.series@.len() == 7
        &&& self.last_ts matches Some(last) ==> -clock::INSTANT_LIMIT_US <= last
            <= clock::INSTANT_LIMIT_US
    }

    /// A state that has followed nothing.
    pub fn new() -> (out: Self)
        ensures
            out.well_formed(),
            out@ == no_minutes(),
    {
        let mut series: Vec<Trail> = Vec::new();
        let mut w: usize = 0;
        while w < 7
            invariant
                w <= 7,
                series@.len() == w,
                forall|i: int| 0 <= i < w ==> (#[trigger] series@[i])@ == Seq::<i64>::empty(),
            decreases 7 - w,
        {
            series.push(Trail::new());
            w += 1;
        }
        let out = AvwapState {
            contributions: Trail::new(),
            gaps: Trail::new(),
            series,
            last_ts: None,
        };
        assert(out@.series =~= no_minutes().series);
        out
    }

    /// The last minute followed.
    pub fn last_ts(&self) -> (out: Option<i64>)
        ensures
            out == self@.last_ts,
    {
        self.last_ts
    }

    /// The place among the held minutes from which on they are in a window.
    pub fn window_from(&self, w: usize) -> (out: usize)
        requires
            self.well_formed(),
            w < 7,
        ensures
            out == window_place(self@, w as int),
            out <= self@.contributions.len(),
    {
        match self.last_ts {
            Some(last) => self.contributions.first_from(
                last - minutes_of(w) * MINUTE_US + MINUTE_US,
            ),
            None => 0,
        }
    }

    /// How many minutes are in a window.
    pub fn observed_minutes(&self, w: usize) -> (out: usize)
        requires
            self.well_formed(),
            w < 7,
        ensures
            out == self@.contributions.len() - window_place(self@, w as int),
    {
        self.contributions.len() - self.window_from(w)
    }

    /// The place among the held gaps from which on they are in a window.
    pub fn gaps_from(&self, w: usize) -> (out: usize)
        requires
            self.well_formed(),
            w < 7,
        ensures
            out == gap_place(self@, w as int),
            out <= self@.gaps.len(),
    {
        match self.last_ts {
            Some(last) => self.gaps.first_from(last - minutes_of(w) * MINUTE_US + MINUTE_US),
            None => 0,
        }
    }

    /// The instants of the points of a window's series.
    pub fn series_instants(&self, w: usize) -> (out: Vec<i64>)
        requires
            self.well_formed(),
            w < 7,
        ensures
            out@ == self@.series[w as int],
    {
        let mut out: Vec<i64> = Vec::new();
        let n: usize = self.series[w].len();
        let mut i: usize = 0;
        while i < n
            invariant
                self.well_formed(),
                w < 7,
                i <= n,
                n == self.series@[w as int]@.len(),
                out@ == self.series@[w as int]@.take(i as int),
            decreases n - i,
        {
            out.push(self.series[w].at(i));
            i += 1;
        }
        assert(out@ =~= self.series@[w as int]@);
        out
    }

    /// Takes one minute of both markets in.
    pub fn append_minute(&mut self, fut: &AvwapMinute, spot: &AvwapMinute) -> (out: AvwapStep)
        requires
            old(self).well_formed(),
            -clock::INSTANT_LIMIT_US + SECOND_US <= fut.ts_bucket <= clock::INSTANT_LIMIT_US,
        ensures
            final(self).well_formed(),
            final(self)@ == taken(old(self)@, *fut, *spot),
            is_step(out, old(self)@, final(self)@, *fut, *spot),
    {
        let ts: i64 = fut.ts_bucket;
        let cutoff: i64 = ts - AVWAP_MEMORY_DAYS * DAY_US;
        self.contributions.push(ts);
        let dropped: usize = self.contributions.drop_upto(cutoff);
        let has_gap: bool = fut.total_qty > KEY_NO_VOLUME && spot.total_qty > KEY_NO_VOLUME;
        if has_gap {
            self.gaps.push(ts);
        }
        let gaps_dropped: usize = self.gaps.drop_upto(cutoff);
        let mut anchored: Vec<bool> = Vec::new();
        let mut points_dropped: Vec<usize> = Vec::new();
        let mut window_from: Vec<usize> = Vec::new();
        let ghost before = old(self).series@;
        let ghost rolled_contributions = self.contributions;
        let ghost rolled_gaps = self.gaps;
        let mut w: usize = 0;
        while w < 7
            invariant
                w <= 7,
                before.len() == 7,
                self.series@.len() == 7,
                -clock::INSTANT_LIMIT_US + SECOND_US <= ts <= clock::INSTANT_LIMIT_US,
                cutoff == ts - AVWAP_MEMORY_DAYS * DAY_US,
                anchored@.len() == w,
                points_dropped@.len() == w,
                window_from@.len() == w,
                forall|i: int|
                    0 <= i < w ==> #[trigger] window_from@[i] == place_in(
                        rolled_contributions@,
                        ts,
                        i,
                    ),
                forall|i: int| w <= i < 7 ==> #[trigger] self.series@[i] == before[i],
                forall|i: int|
                    0 <= i < w ==> (#[trigger] self.series@[i])@ == if is_anchor(
                        ts as int,
                        spec_windows()[i].1 as int,
                    ) {
                        rolling::rolled(before[i]@, ts, cutoff as int)
                    } else {
                        before[i]@
                    },
                forall|i: int|
                    0 <= i < w ==> #[trigger] anchored@[i] == is_anchor(
                        ts as int,
                        spec_windows()[i].1 as int,
                    ),
                forall|i: int|
                    0 <= i < w ==> #[trigger] points_dropped@[i] == before[i]@.len() + (
                    if anchored@[i] {
                        1int
                    } else {
                        0
                    }) - self.series@[i]@.len(),
                self.contributions == rolled_contributions,
                self.gaps == rolled_gaps,
            decreases 7 - w,
        {
            let ghost held = self.series@;
            window_from.push(
                self.contributions.first_from(ts - minutes_of(w) * MINUTE_US + MINUTE_US),
            );
            if anchors(ts, minutes_of(w)) {
                self.series[w].push(ts);
                let gone: usize = self.series[w].drop_upto(cutoff);
                anchored.push(true);
                points_dropped.push(gone);
            } else {
                anchored.push(false);
                points_dropped.push(0);
            }
            proof {
                assert(forall|i: int| 0 <= i < 7 && i != w ==> #[trigger] self.series@[i]
                    == held[i]);
            }
            w += 1;
        }
        self.last_ts = Some(ts);
        proof {
            assert(self@.series =~= taken(old(self)@, *fut, *spot).series);
        }
        AvwapStep { dropped, has_gap, gaps_dropped, anchored, points_dropped, window_from }
    }

    /// Takes rows of both markets in, one by one.
    fn append_all(&mut self, fut: &[AvwapMinute], spot: &[AvwapMinute], n: usize) -> (out: Vec<
        AvwapStep,
    >)
        requires
            old(self).well_formed(),
            n <= fut@.len(),
            n <= spot@.len(),
            forall|i: int|
                0 <= i < fut@.len() ==> -clock::INSTANT_LIMIT_US + SECOND_US <= (
                #[trigger] fut@[i]).ts_bucket <= clock::INSTANT_LIMIT_US,
        ensures
            final(self).well_formed(),
            final(self)@ == followed(old(self)@, fut@, spot@, n as int),
            are_steps(out@, old(self)@, fut@, spot@, n as int),
    {
        let mut out: Vec<AvwapStep> = Vec::new();
        let ghost start = self@;
        let mut i: usize = 0;
        while i < n
            invariant
                i <= n,
                n <= fut@.len(),
                n <= spot@.len(),
                self.well_formed(),
                forall|j: int|
                    0 <= j < fut@.len() ==> -clock::INSTANT_LIMIT_US + SECOND_US <= (
                    #[trigger] fut@[j]).ts_bucket <= clock::INSTANT_LIMIT_US,
                self@ == followed(start, fut@, spot@, i as int),
                are_steps(out@, start, fut@, spot@, i as int),
            decreases n - i,
        {
            let step: AvwapStep = self.append_minute(&fut[i], &spot[i]);
            out.push(step);
            i += 1;
        }
        out
    }

    /// Follows whole histories from the start.
    pub fn rebuild(&mut self, fut: &[AvwapMinute], spot: &[AvwapMinute]) -> (out: Vec<AvwapStep>)
        requires
            forall|i: int|
                0 <= i < fut@.len() ==> -clock::INSTANT_LIMIT_US + SECOND_US <= (
                #[trigger] fut@[i]).ts_bucket <= clock::INSTANT_LIMIT_US,
        ensures
            final(self).well_formed(),
            final(self)@ == rebuilt(fut@, spot@),
            are_steps(
                out@,
                no_minutes(),
                fut@,
                spot@,
                history::shorter(fut@.len(), spot@.len()),
            ),
    {
        *self = AvwapState::new();
        let n: usize = if fut.len() < spot.len() {
            fut.len()
        } else {
            spot.len()
        };
        self.append_all(fut, spot, n)
    }

    /// Brings the state up to the end of two histories.
    pub fn sync(&mut self, fut: &[AvwapMinute], spot: &[AvwapMinute]) -> (out: AvwapSync)
        requires
            old(self).well_formed(),
            forall|i: int|
                0 <= i < fut@.len() ==> -clock::INSTANT_LIMIT_US + SECOND_US <= (
                #[trigger] fut@[i]).ts_bucket <= clock::INSTANT_LIMIT_US,
        ensures
            final(self).well_formed(),
            final(self)@ == synced(old(self)@, fut@, spot@),
            tells_sync(out, old(self)@, fut@, spot@),
    {
        match plan_sync(fut, self.last_ts) {
            SyncPlan::Rebuild => AvwapSync::Rebuilt(self.rebuild(fut, spot)),
            SyncPlan::Nothing => AvwapSync::Nothing,
            SyncPlan::From(fut_from) => {
                let last: i64 = match self.last_ts {
                    Some(last) => last,
                    None => 0,
                };
                let spot_from: usize = lower_bound(spot, last + MINUTE_US);
                if fut.len() - fut_from != spot.len() - spot_from {
                    return AvwapSync::Rebuilt(self.rebuild(fut, spot));
                }
                let fut_tail = vstd::slice::slice_subrange(fut, fut_from, fut.len());
                let spot_tail = vstd::slice::slice_subrange(spot, spot_from, spot.len());
                proof {
                    assert forall|i: int|
                        0 <= i < fut_tail@.len() implies -clock::INSTANT_LIMIT_US + SECOND_US <= (
                    #[trigger] fut_tail@[i]).ts_bucket <= clock::INSTANT_LIMIT_US by {
                        assert(fut_tail@[i] == fut@[fut_from + i]);
                    }
                }
                let n: usize = fut_tail.len();
                let steps: Vec<AvwapStep> = self.append_all(fut_tail, spot_tail, n);
                AvwapSync::Continued { fut_from, spot_from, steps }
            },
        }
    }
}

/// Whether steps say what changed with each of the first `n` rows.
pub open spec fn are_steps(
    steps: Seq<AvwapStep>,
    m: AvwapModel,
    fut: Seq<AvwapMinute>,
    spot: Seq<AvwapMinute>,
    n: int,
) -> bool {
    &&& steps.len() == n
    &&& forall|i: int|
        0 <= i < n ==> is_step(
            #[trigger] steps[i],
            followed(m, fut, spot, i),
            followed(m, fut, spot, i + 1),
            fut[i],
            spot[i],
        )
}

/// Whether a report tells how a state is brought up to the end of two histories, and with
/// which steps.
pub open spec fn tells_sync(
    out: AvwapSync,
    before: AvwapModel,
    fut: Seq<AvwapMinute>,
    spot: Seq<AvwapMinute>,
) -> bool {
    let n = history::shorter(fut.len(), spot.len());
    match history::sync_plan(history::stamps(fut), before.last_ts) {
        SyncPlan::Nothing => out is Nothing,
        SyncPlan::Rebuild => out matches AvwapSync::Rebuilt(steps) && are_steps(
            steps@,
            no_minutes(),
            fut,
            spot,
            n,
        ),
        SyncPlan::From(a) => {
            let b = history::first_at_or_after(
                history::stamps(spot),
                (before.last_ts->0 + MINUTE_US) as i64,
            );
            if fut.len() - a != spot.len() - b {
                out matches AvwapSync::Rebuilt(steps) && are_steps(
                    steps@,
                    no_minutes(),
                    fut,
                    spot,
                    n,
                )
            } else {
                &&& out matches AvwapSync::Continued { fut_from, spot_from, steps }
                &&& fut_from == a
                &&& spot_from == b
                &&& are_steps(
                    steps@,
                    before,
                    fut.subrange(a as int, fut.len() as int),
                    spot.subrange(b, spot.len() as int),
                    fut.len() - a,
                )
            }
        },
    }
}

/// How a state was brought up to the end of two histories.
#[derive(Clone, Debug, PartialEq, Eq)]
pub enum AvwapSync {
    /// It was there already.
    Nothing,
    /// It started over.
    Rebuilt(Vec<AvwapStep>),
    /// It went on with the rows from these places.
    Continued { fut_from: usize, spot_from: usize, steps: Vec<AvwapStep> },
}

proof fn lemma_followed_split(
    m: AvwapModel,
    fut: Seq<AvwapMinute>,
    spot: Seq<AvwapMinute>,
    k: int,
    n: int,
)
    requires
        0 <= k <= n <= fut.len(),
        n <= spot.len(),
    ensures
        followed(m, fut, spot, n) == followed(
            followed(m, fut.take(k), spot.take(k), k),
            fut.subrange(k, fut.len() as int),
            spot.subrange(k, spot.len() as int),
            n - k,
        ),
    decreases n,
{
    if n == k {
        lemma_followed_prefix(m, fut, fut.take(k), spot, spot.take(k), k);
    } else {
        lemma_followed_split(m, fut, spot, k, n - 1);
        assert(fut.subrange(k, fut.len() as int)[n - 1 - k] == fut[n - 1]);
        assert(spot.subrange(k, spot.len() as int)[n - 1 - k] == spot[n - 1]);
    }
}

proof fn lemma_followed_prefix(
    m: AvwapModel,
    fut: Seq<AvwapMinute>,
    fut2: Seq<AvwapMinute>,
    spot: Seq<AvwapMinute>,
    spot2: Seq<AvwapMinute>,
    n: int,
)
    requires
        0 <= n <= fut.len(),
        n <= spot.len(),
        n <= fut2.len(),
        n <= spot2.len(),
        forall|i: int| 0 <= i < n ==> #[trigger] fut[i] == fut2[i],
        forall|i: int| 0 <= i < n ==> #[trigger] spot[i] == spot2[i],
    ensures
        followed(m, fut, spot, n) == followed(m, fut2, spot2, n),
    decreases n,
{
    if n > 0 {
        lemma_followed_prefix(m, fut, fut2, spot, spot2, n - 1);
        assert(fut[n - 1] == fut2[n - 1]);
        assert(spot[n - 1] == spot2[n - 1]);
    }
}

/// A state that followed the first `k` minutes and is then brought up to date holds what
/// a state holds that followed all minutes from the start, as long as both markets have
/// the same minutes, each at least a minute after the one before.
pub proof fn law_sync_continues(fut: Seq<AvwapMinute>, spot: Seq<AvwapMinute>, k: int)
    requires
        0 < k <= fut.len() <= usize::MAX,
        fut.len() == spot.len(),
        history::stamps(fut) == history::stamps(spot),
        history::minutes_apart(history::stamps(fut)),
        forall|i: int|
            0 <= i < fut.len() ==> -clock::INSTANT_LIMIT_US <= (#[trigger] fut[i]).ts_bucket
                <= clock::INSTANT_LIMIT_US,
    ensures
        synced(rebuilt(fut.take(k), spot.take(k)), fut, spot) == rebuilt(fut, spot),
{
    let m = rebuilt(fut.take(k), spot.take(k));
    let ts = history::stamps(fut);
    let n = fut.len() as int;
    assert(m.last_ts == Some(ts[k - 1]));
    assert(fut[k - 1].ts_bucket <= clock::INSTANT_LIMIT_US);
    history::law_sync_goes_on(ts, k);
    lemma_followed_split(no_minutes(), fut, spot, k, n);
    if k < n {
        let b = history::first_at_or_after(ts, (ts[k - 1] + MINUTE_US) as i64);
        assert(b == k) by {
            history::lemma_bisect(ts, (ts[k - 1] + MINUTE_US) as i64, 0, n);
        }
    } else {
        assert(fut.take(k) =~= fut);
        assert(spot.take(k) =~= spot);
    }
}

/// After whole histories came in, the held minutes are exactly those of the last thirty
/// days.
pub proof fn law_held_minutes(fut: Seq<AvwapMinute>, spot: Seq<AvwapMinute>, n: int)
    requires
        0 < n <= fut.len(),
        n <= spot.len(),
        history::in_order(history::stamps(fut)),
    ensures
        followed(no_minutes(), fut, spot, n).contributions == rolling::later_than(
            history::stamps(fut).take(n),
            fut[n - 1].ts_bucket - AVWAP_MEMORY_DAYS * DAY_US,
        ),
    decreases n,
{
    let ts = history::stamps(fut);
    let t = ts[n - 1];
    let limit = t - AVWAP_MEMORY_DAYS * DAY_US;
    let old_ts = ts.take(n - 1);
    assert(old_ts.push(t) =~= ts.take(n));
    assert(history::in_order(ts.take(n))) by {
        assert forall|a: int, b: int| 0 <= a <= b < n implies ts.take(n)[a] <= ts.take(n)[b] by {
            assert(ts[a] <= ts[b]);
        }
    }
    if n == 1 {
        rolling::law_rolled_holds_the_later(old_ts, t, limit, limit);
        assert(old_ts =~= Seq::<i64>::empty());
        assert(rolling::later_than(old_ts, limit) =~= Seq::<i64>::empty());
    } else {
        law_held_minutes(fut, spot, n - 1);
        let old_limit = ts[n - 2] - AVWAP_MEMORY_DAYS * DAY_US;
        assert(ts[n - 2] <= ts[n - 1]);
        rolling::law_rolled_holds_the_later(old_ts, t, old_limit, limit);
    }
}

/// Whether a state holds for a window the minutes that the window of the whole history
/// has.
pub open spec fn keeps_window(m: AvwapModel, fut: Seq<AvwapMinute>, w: int) -> bool {
    let last = fut.last().ts_bucket;
    &&& m.last_ts == Some(last)
    &&& 0 <= window_place(m, w) <= m.contributions.len()
    &&& m.contributions.subrange(window_place(m, w), m.contributions.len() as int)
        == history::stamps(window_slice(fut, last - spec_windows()[w].1 * MINUTE_US, last))
}

/// The held minutes of each window are those that the window of the whole history has, if
/// all minutes stand on whole minutes.
#[verifier::rlimit(50)]
#[verifier::spinoff_prover]
pub proof fn law_held_minutes_match_window(fut: Seq<AvwapMinute>, spot: Seq<AvwapMinute>, w: int)
    requires
        0 < fut.len() == spot.len(),
        0 <= w < 7,
        history::in_order(history::stamps(fut)),
        forall|i: int|
            0 <= i < fut.len() ==> clock::is_instant((#[trigger] fut[i]).ts_bucket)
                && fut[i].ts_bucket as int % (MINUTE_US as int) == 0,
    ensures
        keeps_window(rebuilt(fut, spot), fut, w),
{
    let n = fut.len() as int;
    let ts = history::stamps(fut);
    let last = fut.last().ts_bucket;
    let m = rebuilt(fut, spot);
    let limit = last - AVWAP_MEMORY_DAYS * DAY_US;
    let start = last - spec_windows()[w].1 * MINUTE_US;
    lemma_window_minutes(w);
    law_held_minutes(fut, spot, n);
    assert(ts.take(n) =~= ts);
    assert(clock::is_instant(fut[n - 1].ts_bucket));
    // the held minutes are the end of the history from place `k` on
    let k = lemma_reach(ts, limit);
    rolling::lemma_later_than(ts, limit, k);
    assert(m.contributions == ts.subrange(k, n));
    let held = m.contributions;
    assert(history::in_order(held)) by {
        assert forall|a: int, b: int| 0 <= a <= b < held.len() implies held[a] <= held[b] by {
            assert(ts[k + a] <= ts[k + b]);
        }
    }
    law_window_slice(fut, start, last);
    let (from, to) = choose|from: int, to: int|
        {
            &&& 0 <= from <= to <= fut.len()
            &&& window_slice(fut, start, last) == #[trigger] fut.subrange(from, to)
            &&& forall|i: int|
                0 <= i < fut.len() ==> (from <= i < to <==> start + MINUTE_US <= (
                #[trigger] fut[i]).at() <= last)
        };
    assert(to == n) by {
        assert(from <= n - 1 < to <==> start + MINUTE_US <= fut[n - 1].at() <= last);
    }
    assert(k <= from) by {
        if from < k {
            assert(fut[from].at() == ts[from]);
            assert(from <= from < to);
            assert(start + MINUTE_US <= ts[from]);
            assert(ts[from] <= limit);
        }
    }
    let target = (start + MINUTE_US) as i64;
    assert forall|i: int| 0 <= i < from - k implies #[trigger] held[i] < target by {
        assert(held[i] == ts[k + i]);
        assert(fut[k + i].at() == ts[k + i]);
        assert(ts[k + i] <= ts[n - 1]);
        assert(!(from <= k + i < to));
    }
    assert forall|i: int| from - k <= i < held.len() implies #[trigger] held[i] >= target by {
        assert(held[i] == ts[k + i]);
        assert(fut[k + i].at() == ts[k + i]);
        assert(from <= k + i < to);
    }
    history::lemma_first_at_or_after_is(held, target, from - k);
    assert(held.subrange(from - k, held.len() as int) =~= history::stamps(fut.subrange(from, to)));
}

/// The instants of the rows from place `lo` on and before `hi` in which both markets traded.
pub open spec fn gaps_between(
    fut: Seq<AvwapMinute>,
    spot: Seq<AvwapMinute>,
    lo: int,
    hi: int,
) -> Seq<i64>
    decreases hi - lo,
{
    if hi <= lo {
        Seq::empty()
    } else if has_gap(fut[hi - 1], spot[hi - 1]) {
        gaps_between(fut, spot, lo, hi - 1).push(fut[hi - 1].ts_bucket)
    } else {
        gaps_between(fut, spot, lo, hi - 1)
    }
}

proof fn lemma_gaps_split(
    fut: Seq<AvwapMinute>,
    spot: Seq<AvwapMinute>,
    lo: int,
    mid: int,
    hi: int,
)
    requires
        lo <= mid <= hi,
    ensures
        gaps_between(fut, spot, lo, hi) == gaps_between(fut, spot, lo, mid) + gaps_between(
            fut,
            spot,
            mid,
            hi,
        ),
    decreases hi - mid,
{
    if mid < hi {
        lemma_gaps_split(fut, spot, lo, mid, hi - 1);
    }
    assert(gaps_between(fut, spot, lo, hi) =~= gaps_between(fut, spot, lo, mid) + gaps_between(
        fut,
        spot,
        mid,
        hi,
    ));
}

/// The instants of gaps lie where the rows do.
proof fn lemma_gaps_lie(
    fut: Seq<AvwapMinute>,
    spot: Seq<AvwapMinute>,
    lo: int,
    hi: int,
    least: int,
    most: int,
)
    requires
        0 <= lo,
        hi <= fut.len(),
        forall|i: int| lo <= i < hi ==> least <= (#[trigger] fut[i]).ts_bucket <= most,
    ensures
        forall|j: int|
            0 <= j < gaps_between(fut, spot, lo, hi).len() ==> least <= #[trigger] gaps_between(
                fut,
                spot,
                lo,
                hi,
            )[j] <= most,
    decreases hi - lo,
{
    if lo < hi {
        lemma_gaps_lie(fut, spot, lo, hi - 1, least, most);
        let rest = gaps_between(fut, spot, lo, hi - 1);
        let all = gaps_between(fut, spot, lo, hi);
        assert(least <= fut[hi - 1].ts_bucket <= most);
        assert forall|j: int| 0 <= j < all.len() implies least <= #[trigger] all[j] <= most by {
            if j < rest.len() {
                assert(all[j] == rest[j]);
            }
        }
    }
}

proof fn lemma_gaps_in_order(fut: Seq<AvwapMinute>, spot: Seq<AvwapMinute>, lo: int, hi: int)
    requires
        0 <= lo,
        hi <= fut.len(),
        history::in_order(history::stamps(fut)),
    ensures
        history::in_order(gaps_between(fut, spot, lo, hi)),
    decreases hi - lo,
{
    if lo < hi {
        lemma_gaps_in_order(fut, spot, lo, hi - 1);
        let ts = history::stamps(fut);
        let rest = gaps_between(fut, spot, lo, hi - 1);
        assert forall|i: int| lo <= i < hi - 1 implies ts[lo] <= (#[trigger] fut[i]).ts_bucket
            <= ts[hi - 1] by {
            assert(ts[lo] <= ts[i] <= ts[hi - 1]);
        }
        lemma_gaps_lie(fut, spot, lo, hi - 1, ts[lo] as int, ts[hi - 1] as int);
        let all = gaps_between(fut, spot, lo, hi);
        assert forall|a: int, b: int| 0 <= a <= b < all.len() implies all[a] <= all[b] by {
            if b < rest.len() {
                assert(rest[a] <= rest[b]);
            } else if a < rest.len() {
                assert(rest[a] <= ts[hi - 1]);
            }
        }
    }
}

/// Dropping what lies up to a limit leaves the rest, where it all lies after.
proof fn lemma_drop_upto(a: Seq<i64>, b: Seq<i64>, limit: int)
    requires
        forall|i: int| 0 <= i < a.len() ==> #[trigger] a[i] <= limit,
        forall|i: int| 0 <= i < b.len() ==> #[trigger] b[i] > limit,
    ensures
        history::drop_while(a + b, rolling::is_upto(limit)) == b,
{
    let all = a + b;
    let gone = rolling::is_upto(limit);
    let k = history::lemma_drop_while(all, gone);
    if k < a.len() {
        assert(all[k] == a[k]);
    }
    if k > a.len() {
        assert(all[a.len() as int] == b[0]);
        assert(gone(all[a.len() as int]));
    }
    assert(all.subrange(k, all.len() as int) =~= b);
}

/// After whole histories came in, the held gaps are exactly those of the rows of the last
/// thirty days, which start at place `k`.
proof fn lemma_held_gaps(fut: Seq<AvwapMinute>, spot: Seq<AvwapMinute>, n: int, k: int)
    requires
        0 < n <= fut.len(),
        0 <= k <= n,
        history::in_order(history::stamps(fut)),
        forall|i: int|
            0 <= i < k ==> (#[trigger] fut[i]).ts_bucket <= fut[n - 1].ts_bucket
                - AVWAP_MEMORY_DAYS * DAY_US,
        forall|i: int|
            k <= i < n ==> (#[trigger] fut[i]).ts_bucket > fut[n - 1].ts_bucket
                - AVWAP_MEMORY_DAYS * DAY_US,
    ensures
        followed(no_minutes(), fut, spot, n).gaps == gaps_between(fut, spot, k, n),
    decreases n,
{
    let ts = history::stamps(fut);
    let limit = fut[n - 1].ts_bucket - AVWAP_MEMORY_DAYS * DAY_US;
    let before = followed(no_minutes(), fut, spot, n - 1).gaps;
    let mut j: int = 0;
    if n > 1 {
        let old_limit = ts[n - 2] - AVWAP_MEMORY_DAYS * DAY_US;
        assert(ts[n - 2] <= ts[n - 1]);
        let old_ts = ts.take(n - 1);
        assert(history::in_order(old_ts)) by {
            assert forall|a: int, b: int| 0 <= a <= b < n - 1 implies old_ts[a] <= old_ts[b] by {
                assert(ts[a] <= ts[b]);
            }
        }
        j = lemma_reach(old_ts, old_limit);
        assert forall|i: int| 0 <= i < j implies (#[trigger] fut[i]).ts_bucket <= old_limit by {
            assert(old_ts[i] == fut[i].ts_bucket);
        }
        assert forall|i: int| j <= i < n - 1 implies (#[trigger] fut[i]).ts_bucket > old_limit by {
            assert(old_ts[i] == fut[i].ts_bucket);
        }
        lemma_held_gaps(fut, spot, n - 1, j);
        if k < j {
            assert(fut[k].ts_bucket <= old_limit);
        }
    } else {
        assert(before =~= gaps_between(fut, spot, 0, 0));
    }
    let grown = gaps_between(fut, spot, j, n);
    lemma_gaps_split(fut, spot, j, k, n);
    assert forall|i: int| j <= i < k implies i64::MIN <= (#[trigger] fut[i]).ts_bucket <= limit by {}
    lemma_gaps_lie(fut, spot, j, k, i64::MIN as int, limit);
    assert forall|i: int| k <= i < n implies limit + 1 <= (#[trigger] fut[i]).ts_bucket
        <= i64::MAX by {}
    lemma_gaps_lie(fut, spot, k, n, limit + 1, i64::MAX as int);
    lemma_drop_upto(gaps_between(fut, spot, j, k), gaps_between(fut, spot, k, n), limit);
}

/// The places in which both markets traded and their instants tell the same.
proof fn lemma_traded_places(
    fut: Seq<AvwapMinute>,
    spot: Seq<AvwapMinute>,
    lo: int,
    hi: int,
)
    requires
        0 <= lo <= hi <= fut.len(),
        hi <= spot.len(),
        hi <= usize::MAX,
        forall|i: int| 0 <= i < hi ==> trades_plainly(#[trigger] fut[i]),
        forall|i: int| 0 <= i < hi ==> trades_plainly(#[trigger] spot[i]),
    ensures
        in_time(fut, traded_places(fut, spot, lo, hi)) == gaps_between(fut, spot, lo, hi),
    decreases hi - lo,
{
    if lo < hi {
        lemma_traded_places(fut, spot, lo + 1, hi);
        lemma_gaps_split(fut, spot, lo, lo + 1, hi);
        assert(gaps_between(fut, spot, lo, lo) =~= Seq::empty());
        assert(trades_plainly(fut[lo]));
        assert(trades_plainly(spot[lo]));
        let rest = traded_places(fut, spot, lo + 1, hi);
        if has_gap(fut[lo], spot[lo]) {
            assert(in_time(fut, rest.push(lo as usize)) =~= seq![fut[lo].ts_bucket] + in_time(
                fut,
                rest,
            ));
            assert(gaps_between(fut, spot, lo, lo + 1) =~= seq![fut[lo].ts_bucket]);
        } else {
            assert(gaps_between(fut, spot, lo, lo + 1) =~= Seq::empty());
            assert(gaps_between(fut, spot, lo, hi) =~= gaps_between(fut, spot, lo + 1, hi));
        }
    } else {
        assert(in_time(fut, traded_places(fut, spot, lo, hi)) =~= gaps_between(fut, spot, lo, hi));
    }
}

/// The gaps of the end of two histories are those of the ends by themselves.
proof fn lemma_gaps_of_end(
    fut: Seq<AvwapMinute>,
    spot: Seq<AvwapMinute>,
    from: int,
    hi: int,
)
    requires
        0 <= from <= hi <= fut.len(),
        fut.len() == spot.len(),
    ensures
        gaps_between(
            fut.subrange(from, fut.len() as int),
            spot.subrange(from, fut.len() as int),
            0,
            hi - from,
        ) == gaps_between(fut, spot, from, hi),
    decreases hi - from,
{
    if from < hi {
        lemma_gaps_of_end(fut, spot, from, hi - 1);
    }
}

/// Whether the volume of a minute is either none or enough to count as traded.
pub open spec fn trades_plainly(minute: AvwapMinute) -> bool {
    minute.total_qty > 0 ==> minute.total_qty > KEY_NO_VOLUME
}

/// The instants of places that are listed latest first, in the order of time.
pub open spec fn in_time(rows: Seq<AvwapMinute>, places: Seq<usize>) -> Seq<i64> {
    Seq::new(places.len(), |j: int| rows[places[places.len() - 1 - j] as int].ts_bucket)
}

/// Whether a state holds for a window the gaps at the minutes that the gap is compared
/// over in the window of the whole history.
pub open spec fn keeps_gaps(
    m: AvwapModel,
    fut: Seq<AvwapMinute>,
    spot: Seq<AvwapMinute>,
    w: int,
) -> bool {
    let last = fut.last().ts_bucket;
    let start = last - spec_windows()[w].1 * MINUTE_US;
    let f = window_slice(fut, start, last);
    let s = window_slice(spot, start, last);
    &&& 0 <= gap_place(m, w) <= m.gaps.len()
    &&& m.gaps.subrange(gap_place(m, w), m.gaps.len() as int) == in_time(
        f,
        traded_places(f, s, 0, history::shorter(f.len(), s.len())),
    )
}

/// The held gaps of each window are at the minutes that the gap is compared over in the
/// window of the whole history, if both histories have the same whole minutes and no minute
/// has a volume that is more than none and yet too little to count.
#[verifier::rlimit(40)]
#[verifier::spinoff_prover]
pub proof fn law_held_gaps_match_window(fut: Seq<AvwapMinute>, spot: Seq<AvwapMinute>, w: int)
    requires
        0 < fut.len() <= usize::MAX,
        0 <= w < 7,
        history::stamps(fut) == history::stamps(spot),
        history::in_order(history::stamps(fut)),
        forall|i: int|
            0 <= i < fut.len() ==> clock::is_instant((#[trigger] fut[i]).ts_bucket)
                && fut[i].ts_bucket as int % (MINUTE_US as int) == 0,
        forall|i: int| 0 <= i < fut.len() ==> trades_plainly(#[trigger] fut[i]),
        forall|i: int| 0 <= i < spot.len() ==> trades_plainly(#[trigger] spot[i]),
    ensures
        keeps_gaps(rebuilt(fut, spot), fut, spot, w),
{
    let n = fut.len() as int;
    let ts = history::stamps(fut);
    let last = fut.last().ts_bucket;
    let m = rebuilt(fut, spot);
    let limit = last - AVWAP_MEMORY_DAYS * DAY_US;
    let start = last - spec_windows()[w].1 * MINUTE_US;
    assert(spot.len() == history::stamps(spot).len());
    lemma_window_minutes(w);
    assert(clock::is_instant(fut[n - 1].ts_bucket));
    let k = lemma_reach(ts, limit);
    assert forall|i: int| 0 <= i < k implies (#[trigger] fut[i]).ts_bucket <= limit by {
        assert(ts[i] == fut[i].ts_bucket);
    }
    assert forall|i: int| k <= i < n implies (#[trigger] fut[i]).ts_bucket > limit by {
        assert(ts[i] == fut[i].ts_bucket);
    }
    lemma_held_gaps(fut, spot, n, k);
    let target = (start + MINUTE_US) as i64;
    let beyond = (last + 1) as i64;
    let from = history::first_at_or_after(ts, target);
    history::lemma_first_at_or_after(ts, target);
    assert(history::first_at_or_after(ts, beyond) == n) by {
        assert forall|i: int| 0 <= i < n implies #[trigger] ts[i] < beyond by {
            assert(ts[i] <= ts[n - 1]);
        }
        history::lemma_first_at_or_after_is(ts, beyond, n);
    }
    assert(from < n) by {
        assert(ts[n - 1] >= target);
    }
    let f = window_slice(fut, start, last);
    let s = window_slice(spot, start, last);
    assert(f == fut.subrange(from, n));
    assert(s == spot.subrange(from, n));
    assert(k <= from) by {
        if from < k {
            assert(ts[from] <= limit);
            assert(ts[from] >= target);
        }
    }
    let early = gaps_between(fut, spot, k, from);
    let late = gaps_between(fut, spot, from, n);
    lemma_gaps_split(fut, spot, k, from, n);
    assert(m.gaps == early + late);
    assert forall|i: int| k <= i < from implies i64::MIN <= (#[trigger] fut[i]).ts_bucket <= target
        - 1 by {
        assert(ts[i] < target);
    }
    lemma_gaps_lie(fut, spot, k, from, i64::MIN as int, target - 1);
    assert forall|i: int| from <= i < n implies target <= (#[trigger] fut[i]).ts_bucket
        <= i64::MAX by {
        assert(!(ts[i] < target));
    }
    lemma_gaps_lie(fut, spot, from, n, target as int, i64::MAX as int);
    lemma_gaps_in_order(fut, spot, k, n);
    history::lemma_first_at_or_after_is(m.gaps, target, early.len() as int);
    assert(m.gaps.subrange(early.len() as int, m.gaps.len() as int) =~= late);
    lemma_gaps_of_end(fut, spot, from, n);
    assert forall|i: int| 0 <= i < f.len() implies trades_plainly(#[trigger] f[i]) by {
        assert(f[i] == fut[from + i]);
    }
    assert forall|i: int| 0 <= i < s.len() implies trades_plainly(#[trigger] s[i]) by {
        assert(s[i] == spot[from + i]);
    }
    lemma_traded_places(f, s, 0, n - from);
}

proof fn lemma_window_minutes(w: int)
    requires
        0 <= w < 7,
    ensures
        15 <= spec_windows()[w].1 <= 43_200,
{
}

proof fn lemma_reach(ts: Seq<i64>, limit: int) -> (k: int)
    requires
        history::in_order(ts),
    ensures
        0 <= k <= ts.len(),
        forall|i: int| 0 <= i < k ==> #[trigger] ts[i] <= limit,
        forall|i: int| k <= i < ts.len() ==> #[trigger] ts[i] > limit,
    decreases ts.len(),
{
    let n = ts.len() as int;
    if n == 0 {
        0
    } else if ts[n - 1] <= limit {
        assert forall|i: int| 0 <= i < n implies #[trigger] ts[i] <= limit by {
            assert(ts[i] <= ts[n - 1]);
        }
        n
    } else {
        let rest = ts.drop_last();
        assert(history::in_order(rest)) by {
            assert forall|a: int, b: int| 0 <= a <= b < rest.len() implies rest[a] <= rest[b] by {
                assert(ts[a] <= ts[b]);
            }
        }
        let k = lemma_reach(rest, limit);
        assert forall|i: int| 0 <= i < k implies #[trigger] ts[i] <= limit by {
            assert(rest[i] == ts[i]);
        }
        assert forall|i: int| k <= i < n implies #[trigger] ts[i] > limit by {
            if i < n - 1 {
                assert(rest[i] == ts[i]);
            }
        }
        k
    }
}

/// The instants of the points of a series.
pub open spec fn point_instants(ts: Seq<i64>, points: Seq<SeriesPoint>) -> Seq<i64> {
    points.map_values(|p: SeriesPoint| ts[p.at as int])
}

/// Whether a state has for a window a point of the series wherever the series built from
/// the history in one go has one.
pub open spec fn keeps_series(m: AvwapModel, fut: Seq<AvwapMinute>, w: int, n: int) -> bool {
    m.series[w] == point_instants(
        history::stamps(fut),
        series_points(history::stamps(fut), spec_windows()[w].1, spec_windows()[w].1, n),
    )
}

/// After a history of less than thirty days the series of each window has a point where
/// the series built from the history in one go has one.
pub proof fn law_series_match(fut: Seq<AvwapMinute>, spot: Seq<AvwapMinute>, w: int, n: int)
    requires
        0 <= w < 7,
        0 <= n <= fut.len() <= usize::MAX,
        n <= spot.len(),
        history::in_order(history::stamps(fut)),
        n > 0 ==> fut[n - 1].ts_bucket - fut[0].ts_bucket < AVWAP_MEMORY_DAYS * DAY_US,
    ensures
        keeps_series(followed(no_minutes(), fut, spot, n), fut, w, n),
        forall|i: int|
            0 <= i < followed(no_minutes(), fut, spot, n).series[w].len() ==> fut[0].ts_bucket <= (
            #[trigger] followed(no_minutes(), fut, spot, n).series[w][i]),
    decreases n,
{
    let ts = history::stamps(fut);
    let mins = spec_windows()[w].1;
    let f = |p: SeriesPoint| ts[p.at as int];
    let points = series_points(ts, mins, mins, n);
    if n > 0 {
        assert(ts[0] <= ts[n - 1]);
        if n > 1 {
            assert(ts[n - 2] <= ts[n - 1]);
        }
        law_series_match(fut, spot, w, n - 1);
        let before = followed(no_minutes(), fut, spot, n - 1).series[w];
        let rest = series_points(ts, mins, mins, n - 1);
        let t = ts[n - 1];
        if is_anchor(t as int, mins as int) {
            let cutoff = t - AVWAP_MEMORY_DAYS * DAY_US;
            let all = before.push(t);
            let gone = rolling::is_upto(cutoff);
            assert(!gone(all[0])) by {
                if before.len() > 0 {
                    assert(all[0] == before[0]);
                }
            }
            history::lemma_drop_while_none(all, gone);
            let p = points.last();
            assert(rest.push(p).map_values(f) =~= rest.map_values(f).push(t));
        }
    } else {
        assert(point_instants(ts, points) =~= Seq::<i64>::empty());
    }
}

/// Every window is as long as its name says, and so is a lookback that has a name of its own.
pub proof fn law_windows_are_named(w: int, lookback_minutes: i64)
    requires
        0 <= w < 7,
    ensures
        clock::named_minutes(spec_windows()[w].0) == spec_windows()[w].1,
        ({
            let m = lookback_minutes;
            m == 1 || m == 5 || m == 15 || m == 60 || m == 240 || m == 1440 || m == 4320 || m
                == 10_080 || m == 43_200 ==> clock::named_minutes(window_code(m)) == m
        }),
        lookback_minutes < 1 ==> clock::named_minutes(window_code(lookback_minutes)) == 1,
{
    clock::lemma_named_minutes();
}

/// A lookback is at least a minute long, and as long as asked for where that is more.
pub proof fn law_lookback(minutes: i64)
    ensures
        at_least_one(minutes) >= 1,
        at_least_one(minutes) >= minutes,
        at_least_one(minutes) == 1 || at_least_one(minutes) == minutes,
{
}

/// A difference is known exactly where both sides of it are.
pub proof fn law_differences(a: Option<Key>, b: Option<Key>, value: Key)
    ensures
        with_both(a, b, value) is Some <==> a is Some && b is Some,
        with_both(a, b, value) matches Some(v) ==> v == value,
{
}

/// The gap between the markets is compared exactly where both traded, the latest first.
pub proof fn law_traded_places(
    fut: Seq<AvwapMinute>,
    spot: Seq<AvwapMinute>,
    lo: int,
    hi: int,
    i: int,
)
    requires
        0 <= lo <= hi <= usize::MAX,
        0 <= i <= usize::MAX,
    ensures
        traded_places(fut, spot, lo, hi).contains(i as usize) <==> lo <= i < hi
            && fut[i].total_qty > 0 && spot[i].total_qty > 0,
        forall|a: int, b: int|
            0 <= a < b < traded_places(fut, spot, lo, hi).len() ==> #[trigger] traded_places(
                fut,
                spot,
                lo,
                hi,
            )[a] > #[trigger] traded_places(fut, spot, lo, hi)[b],
        forall|a: int|
            0 <= a < traded_places(fut, spot, lo, hi).len() ==> lo <= #[trigger] traded_places(
                fut,
                spot,
                lo,
                hi,
            )[a] < hi,
    decreases hi - lo,
{
    if lo < hi {
        law_traded_places(fut, spot, lo + 1, hi, i);
        let rest = traded_places(fut, spot, lo + 1, hi);
        let all = traded_places(fut, spot, lo, hi);
        if rest.contains(i as usize) {
            let a = choose|a: int| 0 <= a < rest.len() && rest[a] == i as usize;
            assert(all[a] == i as usize);
        }
        if all.contains(i as usize) {
            let a = choose|a: int| 0 <= a < all.len() && all[a] == i as usize;
            if a < rest.len() {
                assert(rest[a] == i as usize);
            }
        }
        if i == lo && fut[i].total_qty > 0 && spot[i].total_qty > 0 {
            assert(all[all.len() - 1] == i as usize);
        }
    }
}

/// Bars of some minutes start at the multiples of their length.
pub proof fn law_anchors(ts: int, minutes: int)
    requires
        ts % 1_000_000 == 0,
        minutes > 0,
    ensures
        is_anchor(ts, minutes) <==> ts % (minutes * 60_000_000) == 0,
{
    vstd::arithmetic::div_mod::lemma_fundamental_div_mod(ts, SECOND_US as int);
    vstd::arithmetic::mul::lemma_mul_is_commutative(SECOND_US as int, ts / (SECOND_US as int));
    assert(clock::floor_spec(ts, SECOND_US as int) == ts);
}

/// A series has a point for each minute of a history in order at which a bar starts, and the
/// minutes it is taken over are those of the lookback up to that minute.
pub proof fn law_series_points(
    ts: Seq<i64>,
    lookback_minutes: i64,
    sample_minutes: i64,
    hi: int,
    i: int,
)
    requires
        0 <= hi <= ts.len() <= usize::MAX,
        0 <= i < ts.len(),
        history::in_order(ts),
        0 < lookback_minutes <= clock::WINDOW_LIMIT_MINUTES,
        forall|j: int| 0 <= j < ts.len() ==> clock::is_instant(#[trigger] ts[j]),
    ensures
        ({
            let points = series_points(ts, lookback_minutes, sample_minutes, hi);
            &&& is_anchor(ts[i] as int, sample_minutes as int) && i < hi <==> exists|p: int|
                0 <= p < points.len() && (#[trigger] points[p]).at == i
            &&& forall|p: int, j: int|
                #![trigger points[p], ts[j]]
                0 <= p < points.len() && 0 <= j < ts.len() ==> points[p].at < hi && (points[p].from
                    <= j <==> ts[j] > ts[points[p].at as int] - lookback_minutes * 60_000_000
                    + 59_999_999)
            &&& forall|p: int, q: int|
                0 <= p < q < points.len() ==> (#[trigger] points[p]).at < (
                #[trigger] points[q]).at
        }),
    decreases hi,
{
    let points = series_points(ts, lookback_minutes, sample_minutes, hi);
    if hi > 0 {
        law_series_points(ts, lookback_minutes, sample_minutes, hi - 1, i);
        let rest = series_points(ts, lookback_minutes, sample_minutes, hi - 1);
        let t = ts[hi - 1];
        assert(clock::is_instant(t));
        assert(MINUTE_US <= lookback_minutes * MINUTE_US <= clock::WINDOW_LIMIT_MINUTES * MINUTE_US)
            by (nonlinear_arith)
            requires
                0 < lookback_minutes <= clock::WINDOW_LIMIT_MINUTES,
        ;
        let start = (t - lookback_minutes * MINUTE_US + MINUTE_US) as i64;
        history::lemma_first_at_or_after(ts, start);
        if is_anchor(ts[i] as int, sample_minutes as int) && i < hi {
            if i == hi - 1 {
                assert(points[points.len() - 1].at == i);
            } else {
                let p = choose|p: int| 0 <= p < rest.len() && (#[trigger] rest[p]).at == i;
                assert(points[p].at == i);
            }
        }
        if exists|p: int| 0 <= p < points.len() && (#[trigger] points[p]).at == i {
            let p = choose|p: int| 0 <= p < points.len() && (#[trigger] points[p]).at == i;
            if p < rest.len() {
                assert(rest[p].at == i);
            }
        }
        assert forall|p: int, j: int|
            #![trigger points[p], ts[j]]
            0 <= p < points.len() && 0 <= j < ts.len() implies points[p].at < hi && (points[p].from
            <= j <==> ts[j] > ts[points[p].at as int] - lookback_minutes * 60_000_000
            + 59_999_999) by {
            if p < rest.len() {
                assert(points[p] == rest[p]);
                assert(rest[p].at < hi - 1);
            } else {
                assert(ts[j] < start <==> j < history::first_at_or_after(ts, start));
            }
        }
        assert forall|p: int, q: int| 0 <= p < q < points.len() implies (#[trigger] points[p]).at
            < (#[trigger] points[q]).at by {
            assert(points[p] == rest[p]);
            assert(ts[0] == ts[0]);
            assert(rest[p].at < hi - 1);
            if q < rest.len() {
                assert(points[q] == rest[q]);
            }
        }
    }
}

/// A minute that comes in is held with those of the thirty days before it, as a gap where both
/// markets traded, and as a point of each series at which a bar of its window starts.
pub proof fn law_taken(m: AvwapModel, fut: AvwapMinute, spot: AvwapMinute, w: int, t: i64)
    requires
        0 <= w < 7,
        m.series.len() == 7,
        history::in_order(m.contributions.push(fut.ts_bucket)),
        history::in_order(m.gaps.push(fut.ts_bucket)),
        history::in_order(m.series[w].push(fut.ts_bucket)),
    ensures
        ({
            let after = taken(m, fut, spot);
            let ts = fut.ts_bucket;
            let limit = ts - 2_592_000_000_000;
            let traded = fut.total_qty > KEY_NO_VOLUME && spot.total_qty > KEY_NO_VOLUME;
            let starts = is_anchor(ts as int, clock::named_minutes(spec_windows()[w].0));
            &&& after.last_ts == Some(ts)
            &&& after.contributions.contains(t) <==> (m.contributions.contains(t) || t == ts) && t
                > limit
            &&& after.gaps.contains(t) <==> (m.gaps.contains(t) || (traded && t == ts)) && t > limit
            &&& !starts ==> after.series[w] == m.series[w]
            &&& starts ==> (after.series[w].contains(t) <==> (m.series[w].contains(t) || t == ts)
                && t > limit)
        }),
{
    let ts = fut.ts_bucket;
    let limit = ts - AVWAP_MEMORY_DAYS * DAY_US;
    law_windows_are_named(w, 1);
    rolling::law_rolled(m.contributions, ts, limit, t);
    rolling::law_rolled(m.gaps, ts, limit, t);
    rolling::law_rolled(m.series[w], ts, limit, t);
    assert(history::in_order(m.gaps)) by {
        let all = m.gaps.push(ts);
        assert forall|a: int, b: int| 0 <= a <= b < m.gaps.len() implies m.gaps[a] <= m.gaps[b] by {
            assert(all[a] <= all[b]);
        }
    }
    rolling::lemma_dropped(m.gaps, limit, t);
}

/// The held minutes and gaps of a window are those of its minutes up to the last one.
pub proof fn law_window_places(m: AvwapModel, w: int, i: int)
    requires
        0 <= w < 7,
        m.last_ts is Some,
        clock::is_instant(m.last_ts->0),
        history::in_order(m.contributions),
        history::in_order(m.gaps),
    ensures
        ({
            let start = m.last_ts->0 - clock::named_minutes(spec_windows()[w].0) * 60_000_000
                + 60_000_000;
            &&& 0 <= i < m.contributions.len() ==> (window_place(m, w) <= i <==> m.contributions[i]
                >= start)
            &&& 0 <= i < m.gaps.len() ==> (gap_place(m, w) <= i <==> m.gaps[i] >= start)
            &&& 0 <= window_place(m, w) <= m.contributions.len()
            &&& 0 <= gap_place(m, w) <= m.gaps.len()
        }),
{
    law_windows_are_named(w, 1);
    let start = (m.last_ts->0 - spec_windows()[w].1 * MINUTE_US + MINUTE_US) as i64;
    history::lemma_first_at_or_after(m.contributions, start);
    history::lemma_first_at_or_after(m.gaps, start);
    if 0 <= i < m.contributions.len() {
        assert(m.contributions[i] < start <==> i < window_place(m, w));
    }
    if 0 <= i < m.gaps.len() {
        assert(m.gaps[i] < start <==> i < gap_place(m, w));
    }
}

/// The volume of next to nothing is a millionth of a millionth, and gaps are compared from ten
/// on.
pub proof fn law_thresholds()
    ensures
        order::is_nearest(KEY_NO_VOLUME, 1, 1_000_000_000_000),
        MIN_GAPS == 10,
{
    order::lemma_powers_of_two();
}

/// A step tells what a minute changed: whether it has a gap, at which windows' bars it starts,
/// and from which place on the minutes now held are those of each window.
pub proof fn law_step(
    step: AvwapStep,
    before: AvwapModel,
    fut: AvwapMinute,
    spot: AvwapMinute,
    w: int,
    i: int,
)
    requires
        is_step(step, before, taken(before, fut, spot), fut, spot),
        0 <= w < 7,
        before.series.len() == 7,
        clock::is_instant(fut.ts_bucket),
        fut.ts_bucket as int % 1_000_000 == 0,
        history::in_order(taken(before, fut, spot).contributions),
        history::in_order(taken(before, fut, spot).gaps),
        0 <= i < taken(before, fut, spot).contributions.len(),
    ensures
        ({
            let after = taken(before, fut, spot);
            let minutes = clock::named_minutes(spec_windows()[w].0);
            &&& step.has_gap <==> fut.total_qty > KEY_NO_VOLUME && spot.total_qty > KEY_NO_VOLUME
            &&& step.anchored@[w] <==> fut.ts_bucket as int % (minutes * 60_000_000) == 0
            &&& step.window_from@[w] <= i <==> after.contributions[i] >= fut.ts_bucket - minutes
                * 60_000_000 + 60_000_000
            &&& before.contributions.len() + 1 == step.dropped + after.contributions.len()
            &&& step.has_gap ==> before.gaps.len() + 1 == step.gaps_dropped + after.gaps.len()
            &&& !step.has_gap ==> before.gaps.len() == step.gaps_dropped + after.gaps.len()
            &&& step.anchored@[w] ==> before.series[w].len() + 1 == step.points_dropped@[w]
                + after.series[w].len()
            &&& !step.anchored@[w] ==> step.points_dropped@[w] == 0
        }),
{
    let after = taken(before, fut, spot);
    law_windows_are_named(w, 1);
    law_anchors(fut.ts_bucket as int, spec_windows()[w].1 as int);
    law_window_places(after, w, i);
    assert(step.window_from@[w] == window_place(after, w));
    assert(step.anchored@[w] == is_anchor(fut.ts_bucket as int, spec_windows()[w].1 as int));
    assert(step.points_dropped@[w] == before.series[w].len() + (if step.anchored@[w] {
        1int
    } else {
        0
    }) - after.series[w].len());
}

} // verus!
