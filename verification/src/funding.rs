//! Funding rates and mark prices over several windows.

use crate::clock;
use crate::clock::{DAY_US, MINUTE_US};
use crate::history;
use crate::history::{lower_bound, lower_bound_queue, Stamped};
use crate::order::Key;
use crate::windows;
use crate::windows::rows_within;
use std::collections::VecDeque;
use vstd::prelude::*;

verus! {

/// Microseconds in one millisecond.
pub const MILLI_US: i64 = 1_000;

/// How many microseconds are remembered: thirty days, as far back as the longest window
/// reaches.
pub const MEMORY_US: i64 = 2_592_000_000_000;

/// How many microseconds back a change counts as recent: seven days.
pub const RECENT_US: i64 = 604_800_000_000;

/// A value from an instant on; none where the instant brings no value.
#[derive(Clone, Copy, Debug, PartialEq, Eq)]
pub struct Sample {
    pub ts: i64,
    pub value: Option<Key>,
}

impl Stamped for Sample {
    open spec fn at(&self) -> i64 {
        self.ts
    }

    fn ts(&self) -> (out: i64) {
        self.ts
    }
}

/// A change of the funding rate.
#[derive(Clone, Copy, Debug, PartialEq, Eq)]
pub struct FundingChange {
    pub ts_change: i64,
    pub prev: Option<Key>,
    pub new: Key,
    pub delta: Option<Key>,
    pub mark_price_at_change: Option<Key>,
}

impl Stamped for FundingChange {
    open spec fn at(&self) -> i64 {
        self.ts_change
    }

    fn ts(&self) -> (out: i64) {
        self.ts_change
    }
}

/// The windows that are reported, by name and minutes.
pub open spec fn spec_windows() -> Seq<(Seq<char>, i64)> {
    seq![
        ("15m"@, 15i64),
        ("1h"@, 60i64),
        ("4h"@, 240i64),
        ("1d"@, 1440i64),
        ("3d"@, 4320i64),
        ("7d"@, 10_080i64),
        ("30d"@, 43_200i64),
    ]
}

/// The windows that are reported, by name and minutes.
pub fn funding_windows() -> (out: [(&'static str, i64); 7])
    ensures
        forall|i: int|
            0 <= i < 7 ==> (#[trigger] out@[i]).0@ == spec_windows()[i].0 && out@[i].1
                == spec_windows()[i].1,
{
    [
        ("15m", 15),
        ("1h", 60),
        ("4h", 240),
        ("1d", 1440),
        ("3d", 4320),
        ("7d", 10_080),
        ("30d", 43_200),
    ]
}

/// The latest of the first `hi` samples in their order that is not after an instant and
/// has a value.
pub open spec fn latest(samples: Seq<Sample>, t: int, hi: int) -> Option<int>
    decreases hi,
{
    if hi <= 0 {
        None
    } else if samples[hi - 1].ts <= t && samples[hi - 1].value is Some {
        Some(hi - 1)
    } else {
        latest(samples, t, hi - 1)
    }
}

/// What the latest sample says.
pub open spec fn latest_value(samples: Seq<Sample>, t: int) -> Option<Key> {
    match latest(samples, t, samples.len() as int) {
        Some(i) => samples[i].value,
        None => None,
    }
}

/// When the latest sample is from.
pub open spec fn latest_ts(samples: Seq<Sample>, t: int) -> Option<i64> {
    match latest(samples, t, samples.len() as int) {
        Some(i) => Some(samples[i].ts),
        None => None,
    }
}

/// The latest sample found is one that has a value and is not after the instant, and none
/// behind it is.
pub proof fn law_latest(samples: Seq<Sample>, t: int, hi: int)
    requires
        0 <= hi <= samples.len(),
    ensures
        match latest(samples, t, hi) {
            Some(i) => 0 <= i < hi && samples[i].ts <= t && samples[i].value is Some && forall|
                j: int,
            |
                i < j < hi ==> !((#[trigger] samples[j]).ts <= t && samples[j].value is Some),
            None => forall|j: int|
                0 <= j < hi ==> !((#[trigger] samples[j]).ts <= t && samples[j].value is Some),
        },
    decreases hi,
{
    if hi > 0 {
        law_latest(samples, t, hi - 1);
    }
}

/// The latest sample that is not after an instant and has a value.
pub fn latest_at_or_before(samples: &[Sample], t: i64) -> (out: Option<Sample>)
    ensures
        match out {
            None => latest(samples@, t as int, samples@.len() as int) is None,
            Some(s) => latest(samples@, t as int, samples@.len() as int) matches Some(i)
                && samples@[i] == s && s.value is Some,
        },
{
    let mut i: usize = samples.len();
    while i > 0
        invariant
            i <= samples@.len(),
            latest(samples@, t as int, samples@.len() as int) == latest(
                samples@,
                t as int,
                i as int,
            ),
        decreases i,
    {
        let s: Sample = samples[i - 1];
        if s.ts <= t && s.value.is_some() {
            return Some(s);
        }
        i -= 1;
    }
    None
}

/// A value that holds for a while.
#[derive(Clone, Copy, Debug, PartialEq, Eq)]
pub struct Segment {
    pub value: Key,
    pub millis: i64,
}

/// How far a walk over samples has come.
pub struct Walk {
    pub cursor: int,
    pub last: Key,
    pub segments: Seq<Segment>,
}

/// The whole milliseconds of a span, none for a negative one.
pub open spec fn millis(span: int) -> int {
    if span < 0 {
        0
    } else {
        span / (MILLI_US as int)
    }
}

/// A segment added where it lasts a millisecond or more.
pub open spec fn lasting(segments: Seq<Segment>, value: Key, span: int) -> Seq<Segment> {
    if millis(span) > 0 {
        segments.push(Segment { value, millis: millis(span) as i64 })
    } else {
        segments
    }
}

/// A walk over the samples from place `from` up to place `to`: each value holds until the
/// next one, and a sample after `end` ends it.
pub open spec fn walk(
    samples: Seq<Sample>,
    start: int,
    end: int,
    first: Key,
    from: int,
    to: int,
) -> (Walk, bool)
    decreases to - from,
{
    if to <= from {
        (Walk { cursor: start, last: first, segments: Seq::empty() }, false)
    } else {
        let (w, over) = walk(samples, start, end, first, from, to - 1);
        let s = samples[to - 1];
        if over || s.ts > end {
            (w, true)
        } else {
            match s.value {
                None => (w, false),
                Some(value) => if s.ts <= start {
                    (Walk { last: value, ..w }, false)
                } else {
                    (
                        Walk {
                            cursor: s.ts as int,
                            last: value,
                            segments: lasting(w.segments, w.last, s.ts - w.cursor),
                        },
                        false,
                    )
                },
            }
        }
    }
}

/// The segments of a walk over the samples from place `from` on, the last value holding
/// until `end`.
pub open spec fn walked(samples: Seq<Sample>, start: int, end: int, first: Key, from: int) -> Seq<
    Segment,
> {
    let (w, over) = walk(samples, start, end, first, from, samples.len() as int);
    if w.cursor < end {
        lasting(w.segments, w.last, end - w.cursor)
    } else {
        w.segments
    }
}

/// The last value of a walk.
pub open spec fn last_walked(
    samples: Seq<Sample>,
    start: int,
    end: int,
    first: Key,
    from: int,
) -> Key {
    walk(samples, start, end, first, from, samples.len() as int).0.last
}

/// A walk over samples from a place on: the segments and the last value.
fn walk_segments(samples: &[Sample], start: i64, end: i64, first: Key, from: usize) -> (out: (
    Vec<Segment>,
    Key,
))
    requires
        from <= samples@.len(),
        start <= end,
        clock::is_instant(start),
        clock::is_instant(end),
        forall|i: int| 0 <= i < samples@.len() ==> clock::is_instant((#[trigger] samples@[i]).ts),
    ensures
        out.0@ == walked(samples@, start as int, end as int, first, from as int),
        out.1 == last_walked(samples@, start as int, end as int, first, from as int),
{
    let mut segments: Vec<Segment> = Vec::new();
    let mut cursor: i64 = start;
    let mut last: Key = first;
    let n: usize = samples.len();
    let mut i: usize = from;
    let mut over: bool = false;
    while i < n
        invariant
            from <= i <= n,
            n == samples@.len(),
            start <= end,
            clock::is_instant(start),
            clock::is_instant(end),
            forall|j: int|
                0 <= j < samples@.len() ==> clock::is_instant((#[trigger] samples@[j]).ts),
            clock::is_instant(cursor),
            walk(samples@, start as int, end as int, first, from as int, i as int) == (
                Walk { cursor: cursor as int, last, segments: segments@ },
                over,
            ),
        decreases n - i,
    {
        let s: Sample = samples[i];
        assert(clock::is_instant(samples@[i as int].ts));
        if over || s.ts > end {
            over = true;
        } else if let Some(value) = s.value {
            if s.ts <= start {
                last = value;
            } else {
                if s.ts > cursor {
                    let dt: i64 = milliseconds(s.ts as i128 - cursor as i128);
                    if dt > 0 {
                        segments.push(Segment { value: last, millis: dt });
                    }
                }
                cursor = s.ts;
                last = value;
            }
        }
        i += 1;
    }
    if cursor < end {
        let dt: i64 = milliseconds(end as i128 - cursor as i128);
        if dt > 0 {
            segments.push(Segment { value: last, millis: dt });
        }
    }
    (segments, last)
}

fn milliseconds(span: i128) -> (out: i64)
    requires
        0 <= span <= 20_000_000_000_000_000_000,
    ensures
        out == millis(span as int),
{
    (span / 1_000) as i64
}

/// A time-weighted average: none, a value as it is, or an average over segments.
#[derive(Clone, Debug, PartialEq, Eq)]
pub enum TimeAverage {
    Unknown,
    Value(Key),
    Over(Vec<Segment>),
}

/// An average of nothing, or of segments, or else a value.
pub open spec fn is_average(
    out: TimeAverage,
    samples: Seq<Sample>,
    start: int,
    end: int,
    fallback: Option<Key>,
) -> bool {
    if end <= start {
        out is Unknown
    } else if no_values(samples) {
        match fallback {
            None => out is Unknown,
            Some(value) => out == TimeAverage::Value(value),
        }
    } else {
        let first = match fallback {
            Some(value) => value,
            None => first_value(samples),
        };
        let segments = walked(samples, start, end, first, 0);
        if segments.len() == 0 {
            out == TimeAverage::Value(
                match fallback {
                    Some(value) => value,
                    None => last_walked(samples, start, end, first, 0),
                },
            )
        } else {
            out matches TimeAverage::Over(s) && s@ == segments
        }
    }
}

/// Whether no sample has a value.
pub open spec fn no_values(samples: Seq<Sample>) -> bool {
    forall|i: int| 0 <= i < samples.len() ==> (#[trigger] samples[i]).value is None
}

/// The value of the first sample that has one.
pub open spec fn first_value(samples: Seq<Sample>) -> Key
    decreases samples.len(),
{
    if samples.len() == 0 {
        0
    } else {
        match samples[0].value {
            Some(value) => value,
            None => first_value(samples.drop_first()),
        }
    }
}

fn value_of_first(samples: &[Sample]) -> (out: Option<Key>)
    ensures
        match out {
            None => no_values(samples@),
            Some(value) => !no_values(samples@) && value == first_value(samples@),
        },
{
    let n: usize = samples.len();
    let mut i: usize = 0;
    assert(samples@.subrange(0, n as int) =~= samples@);
    while i < n
        invariant
            i <= n,
            n == samples@.len(),
            forall|j: int| 0 <= j < i ==> (#[trigger] samples@[j]).value is None,
            first_value(samples@.subrange(i as int, n as int)) == first_value(samples@),
        decreases n - i,
    {
        let ghost rest = samples@.subrange(i as int, n as int);
        assert(rest[0] == samples@[i as int]);
        if let Some(value) = samples[i].value {
            assert(samples@[i as int].value is Some);
            return Some(value);
        }
        assert(rest.drop_first() =~= samples@.subrange(i + 1, n as int));
        i += 1;
    }
    None
}

/// The time-weighted average of samples between two instants: before the first of them
/// the fallback holds.
pub fn time_weighted_avg(samples: &[Sample], start: i64, end: i64, fallback: Option<Key>) -> (out:
    TimeAverage)
    requires
        clock::is_instant(start),
        clock::is_instant(end),
        forall|i: int| 0 <= i < samples@.len() ==> clock::is_instant((#[trigger] samples@[i]).ts),
    ensures
        is_average(out, samples@, start as int, end as int, fallback),
{
    if end <= start {
        return TimeAverage::Unknown;
    }
    let first: Key = match value_of_first(samples) {
        None => {
            return match fallback {
                None => TimeAverage::Unknown,
                Some(value) => TimeAverage::Value(value),
            };
        },
        Some(value) => match fallback {
            Some(other) => other,
            None => value,
        },
    };
    let (segments, last): (Vec<Segment>, Key) = walk_segments(samples, start, end, first, 0);
    if segments.len() == 0 {
        TimeAverage::Value(
            match fallback {
                Some(value) => value,
                None => last,
            },
        )
    } else {
        TimeAverage::Over(segments)
    }
}

/// Whether places list rows in the order of their instants, those of one instant in their
/// own order.
pub open spec fn is_time_order(places: Seq<usize>, ts: Seq<i64>) -> bool {
    &&& places.len() == ts.len()
    &&& forall|a: int| 0 <= a < places.len() ==> (#[trigger] places[a]) < ts.len()
    &&& forall|a: int, b: int|
        0 <= a < b < places.len() ==> comes_first(ts, #[trigger] places[a], #[trigger] places[b])
}

/// Whether the row at place `p` comes before the row at place `q` in time, or before it
/// at the same instant.
pub open spec fn comes_first(ts: Seq<i64>, p: usize, q: usize) -> bool {
    ts[p as int] < ts[q as int] || (ts[p as int] == ts[q as int] && p < q)
}

/// The samples in the order of their instants, those of one instant in their own order.
pub fn in_time_order(samples: &[Sample]) -> (out: Vec<Sample>)
    ensures
        out@.len() == samples@.len(),
        exists|places: Seq<usize>|
            #[trigger] is_time_order(places, history::stamps(samples@)) && out@ == Seq::new(
                places.len(),
                |a: int| samples@[places[a] as int],
            ),
        history::in_order(history::stamps(out@)),
{
    let n: usize = samples.len();
    let ghost ts = history::stamps(samples@);
    let mut out: Vec<Sample> = Vec::new();
    let ghost mut places: Seq<usize> = Seq::empty();
    let mut i: usize = 0;
    while i < n
        invariant
            i <= n,
            n == samples@.len(),
            ts == history::stamps(samples@),
            places.len() == i,
            out@.len() == i,
            forall|a: int| 0 <= a < i ==> (#[trigger] places[a]) < i,
            forall|a: int| 0 <= a < i ==> #[trigger] out@[a] == samples@[places[a] as int],
            forall|a: int, b: int|
                0 <= a < b < i ==> comes_first(ts, #[trigger] places[a], #[trigger] places[b]),
        decreases n - i,
    {
        let s: Sample = samples[i];
        let ghost before = out@;
        let ghost old_places = places;
        let mut at: usize = i;
        while at > 0 && out[at - 1].ts > s.ts
            invariant
                at <= i,
                out@ == before,
                before.len() == i,
                forall|a: int| at <= a < i ==> (#[trigger] before[a]).ts > s.ts,
            decreases at,
        {
            at -= 1;
        }
        out.insert(at, s);
        proof {
            places = old_places.insert(at as int, i);
            assert(out@ =~= before.insert(at as int, s));
            assert forall|a: int| 0 <= a < i + 1 implies (#[trigger] places[a]) < i + 1 by {
                if a < at {
                    assert(old_places[a] < i);
                } else if a > at {
                    assert(old_places[a - 1] < i);
                }
            }
            assert forall|a: int| 0 <= a < i + 1 implies #[trigger] out@[a]
                == samples@[places[a] as int] by {
                if a < at {
                    assert(before[a] == samples@[old_places[a] as int]);
                } else if a > at {
                    assert(before[a - 1] == samples@[old_places[a - 1] as int]);
                }
            }
            assert forall|a: int, b: int| 0 <= a < b < i + 1 implies comes_first(
                ts,
                #[trigger] places[a],
                #[trigger] places[b],
            ) by {
                if b < at {
                    assert(comes_first(ts, old_places[a], old_places[b]));
                } else if a > at {
                    assert(comes_first(ts, old_places[a - 1], old_places[b - 1]));
                } else if a == at {
                    assert(before[b - 1].ts > s.ts);
                    assert(before[b - 1] == samples@[old_places[b - 1] as int]);
                } else if b == at {
                    assert(before[at - 1].ts <= s.ts);
                    assert(before[at - 1] == samples@[old_places[at - 1] as int]);
                    assert(before[a] == samples@[old_places[a] as int]);
                    if a < at - 1 {
                        assert(comes_first(ts, old_places[a], old_places[at - 1]));
                    }
                    assert(old_places[a] < i);
                } else {
                    assert(comes_first(ts, old_places[a], old_places[b - 1]));
                }
            }
        }
        i += 1;
    }
    proof {
        assert(is_time_order(places, ts));
        assert(out@ =~= Seq::new(places.len(), |a: int| samples@[places[a] as int]));
        let st = history::stamps(out@);
        assert forall|a: int, b: int| 0 <= a <= b < st.len() implies st[a] <= st[b] by {
            if a < b {
                assert(comes_first(ts, places[a], places[b]));
            }
            assert(out@[a] == samples@[places[a] as int]);
            assert(out@[b] == samples@[places[b] as int]);
        }
    }
    out
}

/// The funding rate and the mark price over one window.
#[derive(Clone, Debug, PartialEq, Eq)]
pub struct FundingWindowMetrics {
    pub funding_current: Option<Key>,
    pub funding_current_effective_ts: Option<i64>,
    pub funding_twa: TimeAverage,
    pub mark_price_last: Option<Key>,
    pub mark_price_last_ts: Option<i64>,
    pub mark_price_twap: TimeAverage,
    pub index_price_last: Option<Key>,
    /// The places of the changes within the window.
    pub changes: Vec<usize>,
}

/// The latest value at an instant, or the given one.
pub open spec fn value_or(samples: Seq<Sample>, t: int, other: Option<Key>) -> Option<Key> {
    match latest_value(samples, t) {
        Some(value) => Some(value),
        None => other,
    }
}

/// Whether a current value and its average are those of samples in time order.
pub open spec fn are_metrics_of(
    samples: Seq<Sample>,
    start: int,
    end: int,
    current: Option<Key>,
    current_ts: Option<i64>,
    average: TimeAverage,
) -> bool {
    &&& current == latest_value(samples, end)
    &&& current_ts == latest_ts(samples, end)
    &&& is_average(average, samples, start, end, value_or(samples, start, current))
}

/// Whether `sorted` are the samples in the order of their instants, those of one instant
/// in their own order.
pub open spec fn is_sorted_form(sorted: Seq<Sample>, samples: Seq<Sample>) -> bool {
    exists|places: Seq<usize>|
        #[trigger] is_time_order(places, history::stamps(samples)) && sorted == Seq::new(
            places.len(),
            |a: int| samples[places[a] as int],
        )
}

/// Whether a current value and its average are those of samples, put in time order.
pub open spec fn have_metrics(
    samples: Seq<Sample>,
    start: int,
    end: int,
    current: Option<Key>,
    current_ts: Option<i64>,
    average: TimeAverage,
) -> bool {
    exists|sorted: Seq<Sample>|
        #[trigger] is_sorted_form(sorted, samples) && are_metrics_of(
            sorted,
            start,
            end,
            current,
            current_ts,
            average,
        )
}

/// The current value of samples and its average between two instants.
fn metrics_of(samples: &[Sample], start: i64, end: i64) -> (out: (
    Option<Key>,
    Option<i64>,
    TimeAverage,
))
    requires
        clock::is_instant(start),
        clock::is_instant(end),
        forall|i: int| 0 <= i < samples@.len() ==> clock::is_instant((#[trigger] samples@[i]).ts),
    ensures
        have_metrics(samples@, start as int, end as int, out.0, out.1, out.2),
{
    let sorted: Vec<Sample> = in_time_order(samples);
    proof {
        assert(is_sorted_form(sorted@, samples@));
        let places = choose|places: Seq<usize>|
            #[trigger] is_time_order(places, history::stamps(samples@)) && sorted@ == Seq::new(
                places.len(),
                |a: int| samples@[places[a] as int],
            );
        assert forall|i: int| 0 <= i < sorted@.len() implies clock::is_instant(
            (#[trigger] sorted@[i]).ts,
        ) by {
            assert(places[i] < samples@.len());
            assert(sorted@[i] == samples@[places[i] as int]);
        }
    }
    let now: Option<Sample> = latest_at_or_before(&sorted, end);
    let (current, current_ts): (Option<Key>, Option<i64>) = match now {
        Some(s) => (s.value, Some(s.ts)),
        None => (None, None),
    };
    let fallback: Option<Key> = match latest_at_or_before(&sorted, start) {
        Some(s) => s.value,
        None => current,
    };
    let average: TimeAverage = time_weighted_avg(&sorted, start, end, fallback);
    assert(are_metrics_of(sorted@, start as int, end as int, current, current_ts, average));
    (current, current_ts, average)
}

/// There is one way only to put samples in time order.
pub proof fn law_sorted_form_is_unique(a: Seq<Sample>, b: Seq<Sample>, samples: Seq<Sample>)
    requires
        is_sorted_form(a, samples),
        is_sorted_form(b, samples),
        samples.len() <= usize::MAX,
    ensures
        a == b,
{
    let ts = history::stamps(samples);
    let p = choose|places: Seq<usize>|
        #[trigger] is_time_order(places, ts) && a == Seq::new(
            places.len(),
            |x: int| samples[places[x] as int],
        );
    let q = choose|places: Seq<usize>|
        #[trigger] is_time_order(places, ts) && b == Seq::new(
            places.len(),
            |x: int| samples[places[x] as int],
        );
    assert forall|i: int| 0 <= i < p.len() implies p[i] == q[i] by {
        lemma_orders_agree(p, q, ts, i);
    }
    assert(a =~= b);
}

/// Every row has a place in an order.
proof fn lemma_order_is_full(p: Seq<usize>, ts: Seq<i64>, r: usize)
    requires
        is_time_order(p, ts),
        r < ts.len(),
        ts.len() <= usize::MAX,
    ensures
        p.contains(r),
{
    let ints = p.map_values(|x: usize| x as int);
    assert(ints.no_duplicates()) by {
        assert forall|a: int, b: int| 0 <= a < ints.len() && 0 <= b < ints.len() && a != b implies ints[a]
            != ints[b] by {
            if a < b {
                assert(comes_first(ts, p[a], p[b]));
            } else {
                assert(comes_first(ts, p[b], p[a]));
            }
        }
    }
    let set = ints.to_set();
    let full = vstd::set_lib::set_int_range(0, ts.len() as int);
    ints.unique_seq_to_set();
    vstd::set_lib::lemma_int_range(0, ts.len() as int);
    assert(set.subset_of(full)) by {
        assert forall|x: int| set.contains(x) implies full.contains(x) by {
            let i = choose|i: int| 0 <= i < ints.len() && ints[i] == x;
            assert(p[i] < ts.len());
        }
    }
    vstd::set_lib::lemma_subset_equality(set, full);
    assert(full.contains(r as int));
    assert(set.contains(r as int));
    let i = choose|i: int| 0 <= i < ints.len() && ints[i] == r as int;
    assert(p[i] == r);
}

proof fn lemma_orders_agree(p: Seq<usize>, q: Seq<usize>, ts: Seq<i64>, i: int)
    requires
        is_time_order(p, ts),
        is_time_order(q, ts),
        ts.len() <= usize::MAX,
        0 <= i < p.len(),
    ensures
        p[i] == q[i],
    decreases i,
{
    assert forall|k: int| 0 <= k < i implies p[k] == q[k] by {
        lemma_orders_agree(p, q, ts, k);
    }
    lemma_order_is_full(q, ts, p[i]);
    lemma_order_is_full(p, ts, q[i]);
    let y = choose|y: int| 0 <= y < q.len() && q[y] == p[i];
    let x = choose|x: int| 0 <= x < p.len() && p[x] == q[i];
    if y < i {
        assert(p[y] == q[y]);
        assert(comes_first(ts, p[y], p[i]));
    }
    if x < i {
        assert(p[x] == q[x]);
        assert(comes_first(ts, q[x], q[i]));
    }
    if i < y && i < x {
        assert(comes_first(ts, q[i], q[y]));
        assert(comes_first(ts, p[i], p[x]));
    }
}

/// Whether metrics are those of the window of some minutes up to the end of the minute
/// `ts_bucket`.
pub open spec fn are_window_metrics(
    out: FundingWindowMetrics,
    input: FundingInput,
    index_now: Seq<Sample>,
    ts_bucket: i64,
    mins: i64,
) -> bool {
    let end = ts_bucket + MINUTE_US;
    let start = end - mins * MINUTE_US;
    &&& have_metrics(
        input.points,
        start,
        end,
        out.funding_current,
        out.funding_current_effective_ts,
        out.funding_twa,
    )
    &&& have_metrics(
        input.marks,
        start,
        end,
        out.mark_price_last,
        out.mark_price_last_ts,
        out.mark_price_twap,
    )
    &&& out.index_price_last == match latest_value(input.indexes, end) {
        Some(value) => Some(value),
        None => latest_value(index_now, end),
    }
    &&& windows::as_ints(out.changes@) == windows::places_within(
        history::stamps(input.changes),
        start - 1,
        end - 1,
        input.changes.len() as int,
    )
}

/// The funding rate and the mark price over the window of some minutes up to the end of
/// the minute `ts_bucket`. `index_recent` and `index_now` are the index prices as they
/// came, recent ones and those of the minute; the latter count where the former have
/// none.
pub fn compute_funding_window_metrics(
    funding_points: &[Sample],
    mark_points: &[Sample],
    index_recent: &[Sample],
    index_now: &[Sample],
    changes: &[FundingChange],
    ts_bucket: i64,
    mins: i64,
) -> (out: FundingWindowMetrics)
    requires
        -clock::INSTANT_LIMIT_US <= ts_bucket <= clock::INSTANT_LIMIT_US - MINUTE_US,
        -clock::WINDOW_LIMIT_MINUTES <= mins <= clock::WINDOW_LIMIT_MINUTES,
        -clock::INSTANT_LIMIT_US <= ts_bucket + MINUTE_US - mins * MINUTE_US
            <= clock::INSTANT_LIMIT_US,
        forall|i: int|
            0 <= i < funding_points@.len() ==> clock::is_instant(
                (#[trigger] funding_points@[i]).ts,
            ),
        forall|i: int|
            0 <= i < mark_points@.len() ==> clock::is_instant((#[trigger] mark_points@[i]).ts),
    ensures
        are_window_metrics(
            out,
            FundingInput {
                points: funding_points@,
                marks: mark_points@,
                indexes: index_recent@,
                changes: changes@,
            },
            index_now@,
            ts_bucket,
            mins,
        ),
{
    let end: i64 = ts_bucket + MINUTE_US;
    let start: i64 = end - mins * MINUTE_US;
    let (funding_current, funding_current_effective_ts, funding_twa) = metrics_of(
        funding_points,
        start,
        end,
    );
    let (mark_price_last, mark_price_last_ts, mark_price_twap) = metrics_of(
        mark_points,
        start,
        end,
    );
    let index_price_last: Option<Key> = match latest_at_or_before(index_recent, end) {
        Some(s) => s.value,
        None => match latest_at_or_before(index_now, end) {
            Some(s) => s.value,
            None => None,
        },
    };
    let within: Vec<usize> = rows_within(changes, start - 1, end - 1);
    assert(windows::as_ints(within@) =~= within@.map_values(|i: usize| i as int));
    FundingWindowMetrics {
        funding_current,
        funding_current_effective_ts,
        funding_twa,
        mark_price_last,
        mark_price_last_ts,
        mark_price_twap,
        index_price_last,
        changes: within,
    }
}

/// The places of the changes of the last seven days up to the end of the minute
/// `ts_bucket`.
pub fn recent_7d_changes(changes: &[FundingChange], ts_bucket: i64) -> (out: Vec<usize>)
    requires
        clock::is_instant(ts_bucket),
    ensures
        out@.map_values(|i: usize| i as int) == windows::places_within(
            history::stamps(changes@),
            ts_bucket + MINUTE_US - 7 * DAY_US - 1,
            ts_bucket + MINUTE_US - 1,
            changes@.len() as int,
        ),
{
    let end: i64 = ts_bucket + MINUTE_US;
    rows_within(changes, end - 7 * DAY_US - 1, end - 1)
}

/// The funding rate indicator.
pub struct I16FundingRate;

/// A reported window with its metrics.
#[derive(Debug)]
pub struct ReportedWindow {
    pub label: &'static str,
    pub minutes: i64,
    pub metrics: FundingWindowMetrics,
}

/// The report of a minute.
#[derive(Debug)]
pub struct FundingReport {
    /// The metrics of the minute itself.
    pub now: FundingWindowMetrics,
    /// The places of the changes of the last seven days.
    pub recent_7d: Vec<usize>,
    /// The windows that are reported, each with its metrics.
    pub by_window: Vec<ReportedWindow>,
}

/// Whether windows are the first `n` reported ones, each with its metrics.
pub open spec fn are_reported_windows(
    windows: Seq<ReportedWindow>,
    input: FundingInput,
    index_now: Seq<Sample>,
    ts_bucket: i64,
    n: int,
) -> bool {
    &&& windows.len() == n
    &&& forall|i: int|
        0 <= i < n ==> {
            &&& (#[trigger] windows[i]).label@ == spec_windows()[i].0
            &&& windows[i].minutes == spec_windows()[i].1
            &&& are_window_metrics(
                windows[i].metrics,
                input,
                index_now,
                ts_bucket,
                spec_windows()[i].1,
            )
        }
}

impl I16FundingRate {
    /// The code of the indicator.
    pub fn code(&self) -> (out: &'static str)
        ensures
            out@ == "funding_rate"@,
    {
        "funding_rate"
    }

    /// The report of a minute: the metrics of the minute itself and of each reported window,
    /// and the changes of the last seven days.
    pub fn evaluate(
        &self,
        funding_points: &[Sample],
        mark_points: &[Sample],
        index_recent: &[Sample],
        index_now: &[Sample],
        changes: &[FundingChange],
        ts_bucket: i64,
    ) -> (out: FundingReport)
        requires
            -clock::DATE_LIMIT_US <= ts_bucket <= clock::DATE_LIMIT_US,
            all_instants(funding_points@),
            all_instants(mark_points@),
        ensures
            ({
                let input = FundingInput {
                    points: funding_points@,
                    marks: mark_points@,
                    indexes: index_recent@,
                    changes: changes@,
                };
                &&& are_window_metrics(out.now, input, index_now@, ts_bucket, 1)
                &&& are_reported_windows(out.by_window@, input, index_now@, ts_bucket, 7)
            }),
            out.recent_7d@.map_values(|i: usize| i as int) == windows::places_within(
                history::stamps(changes@),
                ts_bucket + MINUTE_US - 7 * DAY_US - 1,
                ts_bucket + MINUTE_US - 1,
                changes@.len() as int,
            ),
    {
        let ghost input = FundingInput {
            points: funding_points@,
            marks: mark_points@,
            indexes: index_recent@,
            changes: changes@,
        };
        let asked: [(&'static str, i64); 7] = funding_windows();
        let mut by_window: Vec<ReportedWindow> = Vec::new();
        let mut i: usize = 0;
        while i < 7
            invariant
                i <= 7,
                asked@.len() == 7,
                forall|j: int|
                    0 <= j < 7 ==> (#[trigger] asked@[j]).0@ == spec_windows()[j].0 && asked@[j].1
                        == spec_windows()[j].1,
                -clock::DATE_LIMIT_US <= ts_bucket <= clock::DATE_LIMIT_US,
                all_instants(funding_points@),
                all_instants(mark_points@),
                input == (FundingInput {
                    points: funding_points@,
                    marks: mark_points@,
                    indexes: index_recent@,
                    changes: changes@,
                }),
                are_reported_windows(by_window@, input, index_now@, ts_bucket, i as int),
            decreases 7 - i,
        {
            let (label, minutes) = asked[i];
            proof {
                assert(asked@[i as int].1 == spec_windows()[i as int].1);
            }
            let metrics: FundingWindowMetrics = compute_funding_window_metrics(
                funding_points,
                mark_points,
                index_recent,
                index_now,
                changes,
                ts_bucket,
                minutes,
            );
            by_window.push(ReportedWindow { label, minutes, metrics });
            i += 1;
        }
        let now: FundingWindowMetrics = compute_funding_window_metrics(
            funding_points,
            mark_points,
            index_recent,
            index_now,
            changes,
            ts_bucket,
            1,
        );
        let recent_7d: Vec<usize> = recent_7d_changes(changes, ts_bucket);
        FundingReport { now, recent_7d, by_window }
    }
}

/// The minutes of the windows that are kept while minutes come in.
pub open spec fn kept_minutes() -> Seq<i64> {
    seq![1i64, 15i64, 60i64, 240i64, 1440i64, 4320i64, 10_080i64, 43_200i64]
}

fn kept_minutes_of(w: usize) -> (out: i64)
    requires
        w < 8,
    ensures
        out == kept_minutes()[w as int],
        1 <= out <= 43_200,
{
    if w == 0 {
        1
    } else if w == 1 {
        15
    } else if w == 2 {
        60
    } else if w == 3 {
        240
    } else if w == 4 {
        1440
    } else if w == 5 {
        4320
    } else if w == 6 {
        10_080
    } else {
        43_200
    }
}

/// Whether a row is before an instant.
pub open spec fn is_before<T: Stamped>(limit: int) -> spec_fn(T) -> bool {
    |row: T| row.at() < limit
}

/// Rows with the new ones of a list added: those after the last one held.
pub open spec fn with_new<T: Stamped>(held: Seq<T>, list: Seq<T>) -> Seq<T> {
    held + new_rows(held, list)
}

/// The rows of a list that are new: those after the last one held.
pub open spec fn new_rows<T: Stamped>(held: Seq<T>, list: Seq<T>) -> Seq<T> {
    if held.len() == 0 {
        list
    } else {
        list.subrange(
            history::first_at_or_after(history::stamps(list), (held.last().at() + 1) as i64),
            list.len() as int,
        )
    }
}

/// The changes from `start` on and before `end`.
pub open spec fn changes_within(changes: Seq<FundingChange>, start: int, end: int) -> Seq<
    FundingChange,
>
    decreases changes.len(),
{
    if changes.len() == 0 {
        Seq::empty()
    } else if start <= changes.last().ts_change < end {
        changes_within(changes.drop_last(), start, end).push(changes.last())
    } else {
        changes_within(changes.drop_last(), start, end)
    }
}

/// The segments that the area of samples between two instants is made of; none where the
/// span is empty or no value is known by its end.
pub open spec fn area(samples: Seq<Sample>, start: int, end: int) -> Option<Seq<Segment>> {
    if end <= start || latest_value(samples, end) is None {
        None
    } else {
        Some(
            walked(
                samples,
                start,
                end,
                value_or(samples, start, latest_value(samples, end))->0,
                history::first_at_or_after(history::stamps(samples), start as i64),
            ),
        )
    }
}

/// One kept window.
pub struct WindowModel {
    /// Whether the area of the funding rate is known.
    pub has_funding: bool,
    /// Whether the area of the mark price is known.
    pub has_mark: bool,
    /// The changes within the window.
    pub changes: Seq<FundingChange>,
}

/// What is held while minutes come in.
pub struct FundingModel {
    pub points: Seq<Sample>,
    pub marks: Seq<Sample>,
    pub indexes: Seq<Sample>,
    pub changes: Seq<FundingChange>,
    /// The changes of the last seven days.
    pub recent: Seq<FundingChange>,
    pub windows: Seq<WindowModel>,
    pub last_ts: Option<i64>,
}

/// Nothing held.
pub open spec fn nothing_held() -> FundingModel {
    FundingModel {
        points: Seq::empty(),
        marks: Seq::empty(),
        indexes: Seq::empty(),
        changes: Seq::empty(),
        recent: Seq::empty(),
        windows: Seq::empty(),
        last_ts: None,
    }
}

/// What comes in with a minute: the samples and changes known by then.
pub struct FundingInput {
    pub points: Seq<Sample>,
    pub marks: Seq<Sample>,
    pub indexes: Seq<Sample>,
    pub changes: Seq<FundingChange>,
}

/// What is held after starting over at a minute.
pub open spec fn rebuilt(ts: i64, input: FundingInput) -> FundingModel {
    let end = ts + MINUTE_US;
    FundingModel {
        points: input.points,
        marks: input.marks,
        indexes: input.indexes,
        changes: input.changes,
        recent: changes_within(input.changes, end - RECENT_US, i64::MAX + 1),
        windows: Seq::new(
            8,
            |w: int|
                {
                    let start = end - kept_minutes()[w] * MINUTE_US;
                    WindowModel {
                        has_funding: area(input.points, start, end) is Some,
                        has_mark: area(input.marks, start, end) is Some,
                        changes: changes_within(input.changes, start, end),
                    }
                },
        ),
        last_ts: Some(ts),
    }
}

/// Whether an area is known after a window moved on: computed afresh where it was not,
/// else known where what came in and what went out both are.
pub open spec fn area_known(
    known: bool,
    samples: Seq<Sample>,
    old_start: int,
    old_end: int,
    start: int,
    end: int,
) -> bool {
    if known {
        area(samples, old_end, end) is Some && area(samples, old_start, start) is Some
    } else {
        area(samples, start, end) is Some
    }
}

/// What is held after the next minute came in.
pub open spec fn advanced(m: FundingModel, ts: i64, input: FundingInput) -> FundingModel {
    let end = ts + MINUTE_US;
    let points = history::drop_while(
        with_new(m.points, input.points),
        is_before::<Sample>(end - MEMORY_US - MINUTE_US),
    );
    let marks = history::drop_while(
        with_new(m.marks, input.marks),
        is_before::<Sample>(end - MEMORY_US - MINUTE_US),
    );
    let minute = changes_within(new_rows(m.changes, input.changes), ts as int, end);
    FundingModel {
        points,
        marks,
        indexes: history::drop_while(
            with_new(m.indexes, input.indexes),
            is_before::<Sample>(end - MEMORY_US - MINUTE_US),
        ),
        changes: history::drop_while(
            with_new(m.changes, input.changes),
            is_before::<FundingChange>(end - MEMORY_US),
        ),
        recent: history::drop_while(
            m.recent + new_rows(m.changes, input.changes),
            is_before::<FundingChange>(end - RECENT_US),
        ),
        windows: Seq::new(
            8,
            |w: int|
                {
                    let old_end = end - MINUTE_US;
                    let old_start = old_end - kept_minutes()[w] * MINUTE_US;
                    let start = end - kept_minutes()[w] * MINUTE_US;
                    WindowModel {
                        has_funding: area_known(
                            m.windows[w].has_funding,
                            points,
                            old_start,
                            old_end,
                            start,
                            end,
                        ),
                        has_mark: area_known(
                            m.windows[w].has_mark,
                            marks,
                            old_start,
                            old_end,
                            start,
                            end,
                        ),
                        changes: history::drop_while(
                            m.windows[w].changes,
                            is_before::<FundingChange>(start),
                        ) + minute,
                    }
                },
        ),
        last_ts: Some(ts),
    }
}

/// What is held after a state was brought up to a minute: nothing changes for a minute
/// that it has seen, the next minute moves it on, and any other has it start over.
pub open spec fn synced(m: FundingModel, ts: i64, input: FundingInput) -> FundingModel {
    match m.last_ts {
        None => rebuilt(ts, input),
        Some(last) => if ts <= last {
            m
        } else if ts != last + MINUTE_US {
            rebuilt(ts, input)
        } else {
            advanced(m, ts, input)
        },
    }
}

/// How the area of one quantity of a window is brought up to date.
#[derive(Clone, Debug, PartialEq, Eq)]
pub enum AreaStep {
    /// It is not known.
    Absent,
    /// It is the sum over these.
    Whole(Vec<Segment>),
    /// These come in and those go out.
    Roll { add: Vec<Segment>, remove: Vec<Segment> },
}

/// How the areas of a window are brought up to date.
#[derive(Clone, Debug, PartialEq, Eq)]
pub struct WindowStep {
    pub funding: AreaStep,
    pub mark: AreaStep,
}

/// Whether a step computes an area afresh.
pub open spec fn is_whole(step: AreaStep, samples: Seq<Sample>, start: int, end: int) -> bool {
    match area(samples, start, end) {
        None => step is Absent,
        Some(segments) => step matches AreaStep::Whole(s) && s@ == segments,
    }
}

/// Whether a step moves an area on.
pub open spec fn is_roll(
    step: AreaStep,
    known: bool,
    samples: Seq<Sample>,
    old_start: int,
    old_end: int,
    start: int,
    end: int,
) -> bool {
    if !known {
        is_whole(step, samples, start, end)
    } else {
        match (area(samples, old_end, end), area(samples, old_start, start)) {
            (Some(into), Some(out)) => step matches AreaStep::Roll { add, remove } && add@ == into
                && remove@ == out,
            _ => step is Absent,
        }
    }
}

/// The latest sample of a queue that is not after an instant and has a value.
fn latest_in_queue(samples: &VecDeque<Sample>, t: i64) -> (out: Option<Sample>)
    ensures
        match out {
            None => latest(samples@, t as int, samples@.len() as int) is None,
            Some(s) => latest(samples@, t as int, samples@.len() as int) matches Some(i)
                && samples@[i] == s && s.value is Some,
        },
{
    let mut i: usize = samples.len();
    while i > 0
        invariant
            i <= samples@.len(),
            latest(samples@, t as int, samples@.len() as int) == latest(
                samples@,
                t as int,
                i as int,
            ),
        decreases i,
    {
        let s: Sample = samples[i - 1];
        if s.ts <= t && s.value.is_some() {
            return Some(s);
        }
        i -= 1;
    }
    None
}

/// The segments of the area of samples between two instants.
fn piecewise_area(samples: &VecDeque<Sample>, start: i64, end: i64) -> (out: Option<Vec<Segment>>)
    requires
        clock::is_instant(start),
        clock::is_instant(end),
        forall|i: int| 0 <= i < samples@.len() ==> clock::is_instant((#[trigger] samples@[i]).ts),
    ensures
        match out {
            None => area(samples@, start as int, end as int) is None,
            Some(s) => area(samples@, start as int, end as int) == Some(s@),
        },
{
    if end <= start {
        return None;
    }
    let current: Key = match latest_in_queue(samples, end) {
        None => {
            return None;
        },
        Some(s) => match s.value {
            Some(value) => value,
            None => {
                return None;
            },
        },
    };
    let first: Key = match latest_in_queue(samples, start) {
        None => current,
        Some(s) => match s.value {
            Some(value) => value,
            None => current,
        },
    };
    let from: usize = lower_bound_queue(samples, start);
    let mut segments: Vec<Segment> = Vec::new();
    let mut cursor: i64 = start;
    let mut last: Key = first;
    let n: usize = samples.len();
    let mut i: usize = from;
    let mut over: bool = false;
    while i < n
        invariant
            from <= i <= n,
            n == samples@.len(),
            start <= end,
            clock::is_instant(start),
            clock::is_instant(end),
            forall|j: int|
                0 <= j < samples@.len() ==> clock::is_instant((#[trigger] samples@[j]).ts),
            clock::is_instant(cursor),
            walk(samples@, start as int, end as int, first, from as int, i as int) == (
                Walk { cursor: cursor as int, last, segments: segments@ },
                over,
            ),
        decreases n - i,
    {
        let s: Sample = samples[i];
        assert(clock::is_instant(samples@[i as int].ts));
        if over || s.ts > end {
            over = true;
        } else if let Some(value) = s.value {
            if s.ts <= start {
                last = value;
            } else {
                if s.ts > cursor {
                    let dt: i64 = milliseconds(s.ts as i128 - cursor as i128);
                    if dt > 0 {
                        segments.push(Segment { value: last, millis: dt });
                    }
                }
                cursor = s.ts;
                last = value;
            }
        }
        i += 1;
    }
    if cursor < end {
        let dt: i64 = milliseconds(end as i128 - cursor as i128);
        if dt > 0 {
            segments.push(Segment { value: last, millis: dt });
        }
    }
    Some(segments)
}

fn whole_area(samples: &VecDeque<Sample>, start: i64, end: i64) -> (out: AreaStep)
    requires
        clock::is_instant(start),
        clock::is_instant(end),
        forall|i: int| 0 <= i < samples@.len() ==> clock::is_instant((#[trigger] samples@[i]).ts),
    ensures
        is_whole(out, samples@, start as int, end as int),
{
    match piecewise_area(samples, start, end) {
        None => AreaStep::Absent,
        Some(segments) => AreaStep::Whole(segments),
    }
}

fn roll_piecewise_area(
    known: bool,
    samples: &VecDeque<Sample>,
    old_start: i64,
    old_end: i64,
    start: i64,
    end: i64,
) -> (out: AreaStep)
    requires
        clock::is_instant(old_start),
        clock::is_instant(old_end),
        clock::is_instant(start),
        clock::is_instant(end),
        forall|i: int| 0 <= i < samples@.len() ==> clock::is_instant((#[trigger] samples@[i]).ts),
    ensures
        is_roll(
            out,
            known,
            samples@,
            old_start as int,
            old_end as int,
            start as int,
            end as int,
        ),
{
    if !known {
        return whole_area(samples, start, end);
    }
    match (piecewise_area(samples, old_end, end), piecewise_area(samples, old_start, start)) {
        (Some(add), Some(remove)) => AreaStep::Roll { add, remove },
        _ => AreaStep::Absent,
    }
}

fn is_known(step: &AreaStep) -> (out: bool)
    ensures
        out == !(*step is Absent),
{
    match step {
        AreaStep::Absent => false,
        _ => true,
    }
}

/// Adds the rows of a list from a place on.
fn append_from<T: Stamped + Copy>(queue: &mut VecDeque<T>, list: &[T], from: usize)
    requires
        from <= list@.len(),
    ensures
        final(queue)@ == old(queue)@ + list@.subrange(from as int, list@.len() as int),
{
    let n: usize = list.len();
    let mut i: usize = from;
    while i < n
        invariant
            from <= i <= n,
            n == list@.len(),
            queue@ =~= old(queue)@ + list@.subrange(from as int, i as int),
        decreases n - i,
    {
        queue.push_back(list[i]);
        i += 1;
    }
}

/// Where the new rows of a list start: after the last one held.
fn new_from<T: Stamped + Copy>(queue: &VecDeque<T>, list: &[T]) -> (out: usize)
    requires
        queue@.len() > 0 ==> queue@.last().at() < i64::MAX,
    ensures
        out <= list@.len(),
        list@.subrange(out as int, list@.len() as int) == new_rows(queue@, list@),
{
    let n: usize = queue.len();
    if n == 0 {
        assert(list@.subrange(0, list@.len() as int) =~= list@);
        0
    } else {
        lower_bound(list, queue[n - 1].ts() + 1)
    }
}

/// Lets the rows before an instant fall out at the front.
fn drop_before<T: Stamped>(queue: &mut VecDeque<T>, limit: i64)
    ensures
        final(queue)@ == history::drop_while(old(queue)@, is_before::<T>(limit as int)),
{
    let ghost gone = is_before::<T>(limit as int);
    while queue.len() > 0 && queue[0].ts() < limit
        invariant
            gone == is_before::<T>(limit as int),
            history::drop_while(queue@, gone) == history::drop_while(old(queue)@, gone),
        decreases queue@.len(),
    {
        let ghost before = queue@;
        proof {
            assert(gone(before[0]));
        }
        let _ = queue.pop_front();
        assert(queue@ =~= before.drop_first());
    }
    proof {
        if queue@.len() > 0 {
            assert(!gone(queue@[0]));
        }
        history::lemma_drop_while_none(queue@, gone);
    }
}

/// The changes of a list from a place on that are within a span, added to a queue.
fn append_within(
    queue: &mut VecDeque<FundingChange>,
    list: &[FundingChange],
    from: usize,
    start: i64,
    end: i64,
)
    requires
        from <= list@.len(),
    ensures
        final(queue)@ == old(queue)@ + changes_within(
            list@.subrange(from as int, list@.len() as int),
            start as int,
            end as int,
        ),
{
    let n: usize = list.len();
    let mut i: usize = from;
    while i < n
        invariant
            from <= i <= n,
            n == list@.len(),
            queue@ =~= old(queue)@ + changes_within(
                list@.subrange(from as int, i as int),
                start as int,
                end as int,
            ),
        decreases n - i,
    {
        let change: FundingChange = list[i];
        proof {
            let now = list@.subrange(from as int, i + 1);
            assert(now.drop_last() =~= list@.subrange(from as int, i as int));
            assert(now.last() == change);
        }
        if start <= change.ts_change && change.ts_change < end {
            queue.push_back(change);
        }
        i += 1;
    }
}

struct FundingWindow {
    has_funding: bool,
    has_mark: bool,
    changes: VecDeque<FundingChange>,
}

impl View for FundingWindow {
    type V = WindowModel;

    closed spec fn view(&self) -> WindowModel {
        WindowModel {
            has_funding: self.has_funding,
            has_mark: self.has_mark,
            changes: self.changes@,
        }
    }
}

/// The running state of funding rates and mark prices.
pub struct FundingState {
    points: VecDeque<Sample>,
    marks: VecDeque<Sample>,
    indexes: VecDeque<Sample>,
    changes: VecDeque<FundingChange>,
    recent: VecDeque<FundingChange>,
    windows: Vec<FundingWindow>,
    last_ts: Option<i64>,
}

impl View for FundingState {
    type V = FundingModel;

    closed spec fn view(&self) -> FundingModel {
        FundingModel {
            points: self.points@,
            marks: self.marks@,
            indexes: self.indexes@,
            changes: self.changes@,
            recent: self.recent@,
            windows: Seq::new(self.windows@.len(), |w: int| self.windows@[w]@),
            last_ts: self.last_ts,
        }
    }
}

/// Whether samples all lie at instants.
pub open spec fn all_instants(samples: Seq<Sample>) -> bool {
    forall|i: int| 0 <= i < samples.len() ==> clock::is_instant((#[trigger] samples[i]).ts)
}

proof fn lemma_instants_after_roll(held: Seq<Sample>, list: Seq<Sample>, limit: int)
    requires
        all_instants(held),
        all_instants(list),
    ensures
        all_instants(history::drop_while(with_new(held, list), is_before::<Sample>(limit))),
{
    let all = with_new(held, list);
    if held.len() > 0 {
        history::lemma_bisect(
            history::stamps(list),
            (held.last().at() + 1) as i64,
            0,
            list.len() as int,
        );
    }
    assert forall|i: int| 0 <= i < all.len() implies clock::is_instant((#[trigger] all[i]).ts) by {
        if i < held.len() {
            assert(all[i] == held[i]);
        } else if held.len() == 0 {
            assert(all[i] == list[i]);
        } else {
            let from = history::first_at_or_after(
                history::stamps(list),
                (held.last().at() + 1) as i64,
            );
            assert(all[i] == list[from + i - held.len()]);
        }
    }
    let k = history::lemma_drop_while(all, is_before::<Sample>(limit));
    let kept = history::drop_while(all, is_before::<Sample>(limit));
    assert forall|i: int| 0 <= i < kept.len() implies clock::is_instant(
        (#[trigger] kept[i]).ts,
    ) by {
        assert(kept[i] == all[k + i]);
    }
}

impl FundingState {
    /// Samples at instants, eight windows once a minute has come in.
    pub closed spec fn well_formed(&self) -> bool {
        &&& all_instants(self.points@)
        &&& all_instants(self.marks@)
        &&& all_instants(self.indexes@)
        &&& forall|i: int|
            0 <= i < self.changes@.len() ==> (#[trigger] self.changes@[i]).ts_change < i64::MAX
        &&& self.windows@.len() == 8 || self.last_ts is None
        &&& self.last_ts matches Some(last) ==> last <= clock::DATE_LIMIT_US
    }

    /// A state that has followed nothing.
    pub fn new() -> (out: Self)
        ensures
            out.well_formed(),
            out@ == nothing_held(),
    {
        let out = FundingState {
            points: VecDeque::new(),
            marks: VecDeque::new(),
            indexes: VecDeque::new(),
            changes: VecDeque::new(),
            recent: VecDeque::new(),
            windows: Vec::new(),
            last_ts: None,
        };
        assert(out@.windows =~= Seq::<WindowModel>::empty());
        out
    }

    /// The last minute followed.
    pub fn last_ts(&self) -> (out: Option<i64>)
        ensures
            out == self@.last_ts,
    {
        self.last_ts
    }

    /// The funding rate at the end of a minute and when it is from.
    pub fn current_funding(&self, end: i64) -> (out: Option<Sample>)
        ensures
            match out {
                None => latest_value(self@.points, end as int) is None,
                Some(s) => latest_value(self@.points, end as int) == s.value && latest_ts(
                    self@.points,
                    end as int,
                ) == Some(s.ts),
            },
    {
        latest_in_queue(&self.points, end)
    }

    /// The mark price at the end of a minute and when it is from.
    pub fn current_mark(&self, end: i64) -> (out: Option<Sample>)
        ensures
            match out {
                None => latest_value(self@.marks, end as int) is None,
                Some(s) => latest_value(self@.marks, end as int) == s.value && latest_ts(
                    self@.marks,
                    end as int,
                ) == Some(s.ts),
            },
    {
        latest_in_queue(&self.marks, end)
    }

    /// The index price at the end of a minute and when it is from.
    pub fn current_index(&self, end: i64) -> (out: Option<Sample>)
        ensures
            match out {
                None => latest_value(self@.indexes, end as int) is None,
                Some(s) => latest_value(self@.indexes, end as int) == s.value && latest_ts(
                    self@.indexes,
                    end as int,
                ) == Some(s.ts),
            },
    {
        latest_in_queue(&self.indexes, end)
    }

    /// The changes within a kept window.
    pub fn window_changes(&self, w: usize) -> (out: Vec<FundingChange>)
        requires
            w < self@.windows.len(),
        ensures
            out@ == self@.windows[w as int].changes,
    {
        listed(&self.windows[w].changes)
    }

    /// The changes of the last seven days.
    pub fn recent_changes(&self) -> (out: Vec<FundingChange>)
        ensures
            out@ == self@.recent,
    {
        listed(&self.recent)
    }

    /// Starts over at a minute.
    pub fn rebuild(
        &mut self,
        ts_bucket: i64,
        changes: &[FundingChange],
        points: &[Sample],
        marks: &[Sample],
        indexes: &[Sample],
    ) -> (out: Vec<WindowStep>)
        requires
            -clock::DATE_LIMIT_US <= ts_bucket <= clock::DATE_LIMIT_US,
            all_instants(points@),
            all_instants(marks@),
            all_instants(indexes@),
            forall|i: int|
                0 <= i < changes@.len() ==> (#[trigger] changes@[i]).ts_change < i64::MAX,
        ensures
            final(self).well_formed(),
            ({
                let input = FundingInput {
                    points: points@,
                    marks: marks@,
                    indexes: indexes@,
                    changes: changes@,
                };
                &&& final(self)@ == rebuilt(ts_bucket, input)
                &&& are_wholes(out@, ts_bucket, input)
            }),
    {
        let end: i64 = ts_bucket + MINUTE_US;
        *self = FundingState::new();
        assert(self@ == nothing_held());
        append_from(&mut self.points, points, 0);
        append_from(&mut self.marks, marks, 0);
        append_from(&mut self.indexes, indexes, 0);
        append_from(&mut self.changes, changes, 0);
        append_within(&mut self.recent, changes, 0, end - RECENT_US, i64::MAX);
        proof {
            assert(points@.subrange(0, points@.len() as int) =~= points@);
            assert(marks@.subrange(0, marks@.len() as int) =~= marks@);
            assert(indexes@.subrange(0, indexes@.len() as int) =~= indexes@);
            assert(changes@.subrange(0, changes@.len() as int) =~= changes@);
            assert(self.points@ =~= points@);
            assert(self.marks@ =~= marks@);
            assert(self.indexes@ =~= indexes@);
            assert(self.changes@ =~= changes@);
            lemma_open_end(changes@, end - RECENT_US);
            assert(self.recent@ =~= changes_within(changes@, end - RECENT_US, i64::MAX + 1));
        }
        let mut steps: Vec<WindowStep> = Vec::new();
        let mut windows: Vec<FundingWindow> = Vec::new();
        let mut w: usize = 0;
        while w < 8
            invariant
                w <= 8,
                end == ts_bucket + MINUTE_US,
                -clock::DATE_LIMIT_US <= ts_bucket <= clock::DATE_LIMIT_US,
                all_instants(points@),
                all_instants(marks@),
                self.points@ == points@,
                self.marks@ == marks@,
                self.indexes@ == indexes@,
                self.changes@ == changes@,
                self.recent@ == changes_within(changes@, end - RECENT_US, i64::MAX + 1),
                steps@.len() == w,
                windows@.len() == w,
                forall|i: int|
                    0 <= i < w ==> is_whole(
                        (#[trigger] steps@[i]).funding,
                        points@,
                        end - kept_minutes()[i] * MINUTE_US,
                        end as int,
                    ) && is_whole(
                        steps@[i].mark,
                        marks@,
                        end - kept_minutes()[i] * MINUTE_US,
                        end as int,
                    ),
                forall|i: int|
                    0 <= i < w ==> {
                        let start = end - kept_minutes()[i] * MINUTE_US;
                        &&& (#[trigger] windows@[i]).has_funding == (area(
                            points@,
                            start,
                            end as int,
                        ) is Some)
                        &&& windows@[i].has_mark == (area(marks@, start, end as int) is Some)
                        &&& windows@[i].changes@ == changes_within(changes@, start, end as int)
                    },
            decreases 8 - w,
        {
            let start: i64 = end - kept_minutes_of(w) * MINUTE_US;
            let funding: AreaStep = whole_area(&self.points, start, end);
            let mark: AreaStep = whole_area(&self.marks, start, end);
            let mut within: VecDeque<FundingChange> = VecDeque::new();
            append_within(&mut within, changes, 0, start, end);
            proof {
                assert(changes@.subrange(0, changes@.len() as int) =~= changes@);
                assert(within@ =~= changes_within(changes@, start as int, end as int));
            }
            windows.push(
                FundingWindow {
                    has_funding: is_known(&funding),
                    has_mark: is_known(&mark),
                    changes: within,
                },
            );
            steps.push(WindowStep { funding, mark });
            w += 1;
        }
        self.windows = windows;
        self.last_ts = Some(ts_bucket);
        proof {
            let input = FundingInput {
                points: points@,
                marks: marks@,
                indexes: indexes@,
                changes: changes@,
            };
            assert(self@.windows =~= rebuilt(ts_bucket, input).windows) by {
                assert forall|i: int| 0 <= i < 8 implies self@.windows[i] == rebuilt(
                    ts_bucket,
                    input,
                ).windows[i] by {
                    assert(self.windows@[i].has_funding == windows@[i].has_funding);
                }
            }
        }
        steps
    }

    /// Moves on to the next minute.
    fn advance(
        &mut self,
        ts_bucket: i64,
        changes: &[FundingChange],
        points: &[Sample],
        marks: &[Sample],
        indexes: &[Sample],
    ) -> (out: Vec<WindowStep>)
        requires
            old(self).well_formed(),
            old(self)@.last_ts is Some,
            -clock::DATE_LIMIT_US <= ts_bucket <= clock::DATE_LIMIT_US,
            all_instants(points@),
            all_instants(marks@),
            all_instants(indexes@),
            forall|i: int|
                0 <= i < changes@.len() ==> (#[trigger] changes@[i]).ts_change < i64::MAX,
        ensures
            final(self).well_formed(),
            ({
                let input = FundingInput {
                    points: points@,
                    marks: marks@,
                    indexes: indexes@,
                    changes: changes@,
                };
                &&& final(self)@ == advanced(old(self)@, ts_bucket, input)
                &&& are_rolls(out@, old(self)@, final(self)@, ts_bucket)
            }),
    {
        let end: i64 = ts_bucket + MINUTE_US;
        let cutoff: i64 = end - MEMORY_US;
        let ghost m = self@;
        proof {
            lemma_instants_after_roll(m.points, points@, cutoff - MINUTE_US);
            lemma_instants_after_roll(m.marks, marks@, cutoff - MINUTE_US);
            lemma_instants_after_roll(m.indexes, indexes@, cutoff - MINUTE_US);
            if m.points.len() > 0 {
                assert(clock::is_instant(m.points[m.points.len() - 1].ts));
            }
            if m.marks.len() > 0 {
                assert(clock::is_instant(m.marks[m.marks.len() - 1].ts));
            }
            if m.indexes.len() > 0 {
                assert(clock::is_instant(m.indexes[m.indexes.len() - 1].ts));
            }
            if m.changes.len() > 0 {
                assert(m.changes[m.changes.len() - 1].ts_change < i64::MAX);
            }
        }
        let from: usize = new_from(&self.points, points);
        append_from(&mut self.points, points, from);
        drop_before(&mut self.points, cutoff - MINUTE_US);
        let from: usize = new_from(&self.marks, marks);
        append_from(&mut self.marks, marks, from);
        drop_before(&mut self.marks, cutoff - MINUTE_US);
        let from: usize = new_from(&self.indexes, indexes);
        append_from(&mut self.indexes, indexes, from);
        drop_before(&mut self.indexes, cutoff - MINUTE_US);
        let from: usize = new_from(&self.changes, changes);
        append_from(&mut self.changes, changes, from);
        append_from(&mut self.recent, changes, from);
        let ghost all_changes = self.changes@;
        drop_before(&mut self.changes, cutoff);
        drop_before(&mut self.recent, end - RECENT_US);
        let ghost now = *self;
        proof {
            let k = history::lemma_drop_while(
                all_changes,
                is_before::<FundingChange>(cutoff as int),
            );
            assert forall|i: int| 0 <= i < self.changes@.len() implies (
            #[trigger] self.changes@[i]).ts_change < i64::MAX by {
                assert(self.changes@[i] == all_changes[k + i]);
                if k + i < m.changes.len() {
                    assert(all_changes[k + i] == m.changes[k + i]);
                } else {
                    assert(all_changes[k + i] == changes@[from + (k + i - m.changes.len())]);
                }
            }
        }
        let mut steps: Vec<WindowStep> = Vec::new();
        let ghost before = self.windows@;
        let ghost minute = changes_within(
            new_rows(m.changes, changes@),
            ts_bucket as int,
            end as int,
        );
        let mut w: usize = 0;
        while w < 8
            invariant
                w <= 8,
                end == ts_bucket + MINUTE_US,
                -clock::DATE_LIMIT_US <= ts_bucket <= clock::DATE_LIMIT_US,
                all_instants(now.points@),
                all_instants(now.marks@),
                self.points@ == now.points@,
                self.marks@ == now.marks@,
                self.indexes@ == now.indexes@,
                self.changes@ == now.changes@,
                self.recent@ == now.recent@,
                from <= changes@.len(),
                changes@.subrange(from as int, changes@.len() as int) == new_rows(
                    m.changes,
                    changes@,
                ),
                minute == changes_within(
                    new_rows(m.changes, changes@),
                    ts_bucket as int,
                    end as int,
                ),
                before.len() == 8,
                self.windows@.len() == 8,
                steps@.len() == w,
                forall|i: int| w <= i < 8 ==> #[trigger] self.windows@[i] == before[i],
                forall|i: int|
                    0 <= i < w ==> {
                        let old_end = end - MINUTE_US;
                        let old_start = old_end - kept_minutes()[i] * MINUTE_US;
                        let start = end - kept_minutes()[i] * MINUTE_US;
                        &&& (#[trigger] self.windows@[i]).has_funding == area_known(
                            before[i].has_funding,
                            now.points@,
                            old_start,
                            old_end,
                            start,
                            end as int,
                        )
                        &&& self.windows@[i].has_mark == area_known(
                            before[i].has_mark,
                            now.marks@,
                            old_start,
                            old_end,
                            start,
                            end as int,
                        )
                        &&& self.windows@[i].changes@ == history::drop_while(
                            before[i].changes@,
                            is_before::<FundingChange>(start),
                        ) + minute
                    },
                forall|i: int|
                    0 <= i < w ==> {
                        let old_end = end - MINUTE_US;
                        let old_start = old_end - kept_minutes()[i] * MINUTE_US;
                        let start = end - kept_minutes()[i] * MINUTE_US;
                        &&& is_roll(
                            (#[trigger] steps@[i]).funding,
                            before[i].has_funding,
                            now.points@,
                            old_start,
                            old_end,
                            start,
                            end as int,
                        )
                        &&& is_roll(
                            steps@[i].mark,
                            before[i].has_mark,
                            now.marks@,
                            old_start,
                            old_end,
                            start,
                            end as int,
                        )
                    },
            decreases 8 - w,
        {
            let minutes: i64 = kept_minutes_of(w);
            let old_end: i64 = end - MINUTE_US;
            let old_start: i64 = old_end - minutes * MINUTE_US;
            let start: i64 = end - minutes * MINUTE_US;
            let ghost held = self.windows@;
            let funding: AreaStep = roll_piecewise_area(
                self.windows[w].has_funding,
                &self.points,
                old_start,
                old_end,
                start,
                end,
            );
            let mark: AreaStep = roll_piecewise_area(
                self.windows[w].has_mark,
                &self.marks,
                old_start,
                old_end,
                start,
                end,
            );
            self.windows[w].has_funding = is_known(&funding);
            self.windows[w].has_mark = is_known(&mark);
            drop_before(&mut self.windows[w].changes, start);
            append_within(&mut self.windows[w].changes, changes, from, ts_bucket, end);
            proof {
                assert(forall|i: int| 0 <= i < 8 && i != w ==> #[trigger] self.windows@[i]
                    == held[i]);
            }
            steps.push(WindowStep { funding, mark });
            w += 1;
        }
        self.last_ts = Some(ts_bucket);
        proof {
            let input = FundingInput {
                points: points@,
                marks: marks@,
                indexes: indexes@,
                changes: changes@,
            };
            let goal = advanced(m, ts_bucket, input);
            assert(self@.windows =~= goal.windows) by {
                assert forall|i: int| 0 <= i < 8 implies self@.windows[i] == goal.windows[i] by {
                    assert(before[i]@ == m.windows[i]);
                    assert(self.windows@[i].has_funding == goal.windows[i].has_funding);
                    assert(self.windows@[i].changes@ == goal.windows[i].changes);
                }
            }
            assert forall|i: int| 0 <= i < 8 implies (#[trigger] m.windows[i]) == before[i]@ by {}
        }
        steps
    }

    /// Brings the state up to a minute.
    pub fn sync(
        &mut self,
        ts_bucket: i64,
        changes: &[FundingChange],
        points: &[Sample],
        marks: &[Sample],
        indexes: &[Sample],
    ) -> (out: FundingSync)
        requires
            old(self).well_formed(),
            -clock::DATE_LIMIT_US <= ts_bucket <= clock::DATE_LIMIT_US,
            all_instants(points@),
            all_instants(marks@),
            all_instants(indexes@),
            forall|i: int|
                0 <= i < changes@.len() ==> (#[trigger] changes@[i]).ts_change < i64::MAX,
        ensures
            final(self).well_formed(),
            ({
                let input = FundingInput {
                    points: points@,
                    marks: marks@,
                    indexes: indexes@,
                    changes: changes@,
                };
                &&& final(self)@ == synced(old(self)@, ts_bucket, input)
                &&& tells_sync(out, old(self)@, ts_bucket, input)
            }),
    {
        match self.last_ts {
            None => FundingSync::Rebuilt(self.rebuild(ts_bucket, changes, points, marks, indexes)),
            Some(last) => {
                if ts_bucket <= last {
                    FundingSync::Nothing
                } else if ts_bucket != last + MINUTE_US {
                    FundingSync::Rebuilt(
                        self.rebuild(ts_bucket, changes, points, marks, indexes),
                    )
                } else {
                    FundingSync::Advanced(
                        self.advance(ts_bucket, changes, points, marks, indexes),
                    )
                }
            },
        }
    }
}

/// Whether steps move the areas of all windows on to the end of a minute.
pub open spec fn are_rolls(
    steps: Seq<WindowStep>,
    before: FundingModel,
    after: FundingModel,
    ts_bucket: i64,
) -> bool {
    &&& steps.len() == 8
    &&& forall|w: int|
        0 <= w < 8 ==> {
            let end = ts_bucket + MINUTE_US;
            let old_end = end - MINUTE_US;
            let old_start = old_end - kept_minutes()[w] * MINUTE_US;
            let start = end - kept_minutes()[w] * MINUTE_US;
            &&& is_roll(
                (#[trigger] steps[w]).funding,
                before.windows[w].has_funding,
                after.points,
                old_start,
                old_end,
                start,
                end,
            )
            &&& is_roll(
                steps[w].mark,
                before.windows[w].has_mark,
                after.marks,
                old_start,
                old_end,
                start,
                end,
            )
        }
}

/// Whether steps compute the areas of all windows afresh at the end of a minute.
pub open spec fn are_wholes(steps: Seq<WindowStep>, ts_bucket: i64, input: FundingInput) -> bool {
    let end = ts_bucket + MINUTE_US;
    &&& steps.len() == 8
    &&& forall|w: int|
        0 <= w < 8 ==> {
            let start = end - kept_minutes()[w] * MINUTE_US;
            &&& is_whole((#[trigger] steps[w]).funding, input.points, start, end)
            &&& is_whole(steps[w].mark, input.marks, start, end)
        }
}

/// Whether a report tells how a state is brought up to a minute, and with which steps.
pub open spec fn tells_sync(
    out: FundingSync,
    before: FundingModel,
    ts_bucket: i64,
    input: FundingInput,
) -> bool {
    match (before.last_ts, out) {
        (None, FundingSync::Rebuilt(steps)) => are_wholes(steps@, ts_bucket, input),
        (Some(last), FundingSync::Nothing) => ts_bucket <= last,
        (Some(last), FundingSync::Rebuilt(steps)) => ts_bucket > last && ts_bucket != last
            + MINUTE_US && are_wholes(steps@, ts_bucket, input),
        (Some(last), FundingSync::Advanced(steps)) => ts_bucket == last + MINUTE_US && are_rolls(
            steps@,
            before,
            advanced(before, ts_bucket, input),
            ts_bucket,
        ),
        _ => false,
    }
}

/// How a state was brought up to a minute.
#[derive(Clone, Debug, PartialEq, Eq)]
pub enum FundingSync {
    /// It was there already.
    Nothing,
    /// It started over.
    Rebuilt(Vec<WindowStep>),
    /// It moved on.
    Advanced(Vec<WindowStep>),
}

/// The rows of a queue as a list.
fn listed(queue: &VecDeque<FundingChange>) -> (out: Vec<FundingChange>)
    ensures
        out@ == queue@,
{
    let mut out: Vec<FundingChange> = Vec::new();
    let n: usize = queue.len();
    let mut i: usize = 0;
    while i < n
        invariant
            i <= n,
            n == queue@.len(),
            out@ == queue@.take(i as int),
        decreases n - i,
    {
        out.push(queue[i]);
        i += 1;
    }
    assert(queue@.take(i as int) =~= queue@);
    out
}

proof fn lemma_open_end(changes: Seq<FundingChange>, start: int)
    requires
        forall|i: int| 0 <= i < changes.len() ==> (#[trigger] changes[i]).ts_change < i64::MAX,
    ensures
        changes_within(changes, start, i64::MAX as int) == changes_within(
            changes,
            start,
            i64::MAX + 1,
        ),
    decreases changes.len(),
{
    if changes.len() > 0 {
        let rest = changes.drop_last();
        assert forall|i: int| 0 <= i < rest.len() implies (#[trigger] rest[i]).ts_change
            < i64::MAX by {
            assert(rest[i] == changes[i]);
        }
        assert(changes[changes.len() - 1].ts_change < i64::MAX);
        lemma_open_end(rest, start);
    }
}

/// Over changes in order those within a span are a part of the list.
proof fn lemma_within_is_part(changes: Seq<FundingChange>, start: int, end: int, a: int, b: int)
    requires
        0 <= a <= b <= changes.len(),
        forall|i: int| 0 <= i < a ==> (#[trigger] changes[i]).ts_change < start,
        forall|i: int| a <= i < b ==> start <= (#[trigger] changes[i]).ts_change < end,
        forall|i: int| b <= i < changes.len() ==> (#[trigger] changes[i]).ts_change >= end,
    ensures
        changes_within(changes, start, end) == changes.subrange(a, b),
    decreases changes.len(),
{
    if changes.len() > 0 {
        let rest = changes.drop_last();
        let n = changes.len() as int;
        if b == n {
            if a == n {
                lemma_within_is_part(rest, start, end, a - 1, b - 1);
                assert(changes[n - 1].ts_change < start);
                assert(changes_within(changes, start, end) =~= changes.subrange(a, b));
            } else {
                lemma_within_is_part(rest, start, end, a, b - 1);
                assert(start <= changes[n - 1].ts_change < end);
                assert(changes_within(changes, start, end) =~= changes.subrange(a, b));
            }
        } else {
            lemma_within_is_part(rest, start, end, a, b);
            assert(changes[n - 1].ts_change >= end);
            assert(changes_within(changes, start, end) =~= changes.subrange(a, b));
        }
    } else {
        assert(changes_within(changes, start, end) =~= changes.subrange(a, b));
    }
}

/// Where changes in order reach an instant.
proof fn lemma_reach(changes: Seq<FundingChange>, t: int) -> (k: int)
    requires
        history::in_order(history::stamps(changes)),
    ensures
        0 <= k <= changes.len(),
        forall|i: int| 0 <= i < k ==> (#[trigger] changes[i]).ts_change < t,
        forall|i: int| k <= i < changes.len() ==> (#[trigger] changes[i]).ts_change >= t,
    decreases changes.len(),
{
    let ts = history::stamps(changes);
    if changes.len() == 0 {
        0
    } else if changes.last().ts_change < t {
        assert forall|i: int| 0 <= i < changes.len() implies (#[trigger] changes[i]).ts_change
            < t by {
            assert(ts[i] <= ts[changes.len() - 1]);
        }
        changes.len() as int
    } else {
        let rest = changes.drop_last();
        assert(history::in_order(history::stamps(rest))) by {
            let st = history::stamps(rest);
            assert forall|a: int, b: int| 0 <= a <= b < st.len() implies st[a] <= st[b] by {
                assert(ts[a] <= ts[b]);
            }
        }
        let k = lemma_reach(rest, t);
        assert forall|i: int| 0 <= i < k implies (#[trigger] changes[i]).ts_change < t by {
            assert(rest[i] == changes[i]);
        }
        assert forall|i: int| k <= i < changes.len() implies (#[trigger] changes[i]).ts_change
            >= t by {
            if i < changes.len() - 1 {
                assert(rest[i] == changes[i]);
            }
        }
        k
    }
}

/// A window that held the changes of its span holds those of its new span after the next
/// minute came in, if the list of changes is in order and no change came late: what the
/// state holds is from before the minute, and the window held all that the list has of
/// its old span.
#[verifier::rlimit(60)]
#[verifier::spinoff_prover]
pub proof fn law_window_changes_follow(m: FundingModel, ts: i64, input: FundingInput, w: int)
    requires
        0 <= w < 8,
        -clock::DATE_LIMIT_US <= ts <= clock::DATE_LIMIT_US,
        history::in_order(history::stamps(input.changes)),
        forall|i: int| 0 <= i < m.changes.len() ==> (#[trigger] m.changes[i]).ts_change < ts,
        m.windows[w].changes == changes_within(
            input.changes,
            ts - kept_minutes()[w] * MINUTE_US,
            ts as int,
        ),
    ensures
        advanced(m, ts, input).windows[w].changes == changes_within(
            input.changes,
            ts + MINUTE_US - kept_minutes()[w] * MINUTE_US,
            ts + MINUTE_US,
        ),
{
    let list = input.changes;
    let end = ts + MINUTE_US;
    let span = kept_minutes()[w] * MINUTE_US;
    assert(span >= MINUTE_US) by {
        assert(kept_minutes()[w] >= 1);
        assert(kept_minutes()[w] * MINUTE_US >= MINUTE_US) by (nonlinear_arith)
            requires
                kept_minutes()[w] >= 1,
        ;
    }
    let a0 = lemma_reach(list, ts - span);
    let a = lemma_reach(list, end - span);
    let b0 = lemma_reach(list, ts as int);
    let b = lemma_reach(list, end);
    assert(a0 <= a <= b0 <= b) by {
        if a < a0 {
            assert(list[a].ts_change < ts - span);
        }
        if b0 < a {
            assert(list[b0].ts_change < end - span);
        }
        if b < b0 {
            assert(list[b].ts_change < ts);
        }
    }
    lemma_within_is_part(list, ts - span, ts as int, a0, b0);
    lemma_within_is_part(list, end - span, end, a, b);
    let held = m.windows[w].changes;
    let gone = is_before::<FundingChange>(end - span);
    let d = history::lemma_drop_while(held, gone);
    assert(d == a - a0) by {
        if d < a - a0 {
            assert(held[d] == list[a0 + d]);
            assert(gone(held[d]));
        }
        if d > a - a0 {
            assert(gone(held[a - a0]));
            assert(held[a - a0] == list[a]);
        }
    }
    let fresh = new_rows(m.changes, list);
    assert(changes_within(fresh, ts as int, end) == list.subrange(b0, b)) by {
        if m.changes.len() == 0 {
            lemma_within_is_part(list, ts as int, end, b0, b);
        } else {
            let last = m.changes.last();
            assert(m.changes[m.changes.len() - 1].ts_change < ts);
            let st = history::stamps(list);
            history::lemma_first_at_or_after(st, (last.at() + 1) as i64);
            let f = history::first_at_or_after(st, (last.at() + 1) as i64);
            assert(f <= b0) by {
                if b0 < f {
                    assert(st[b0] < last.at() + 1);
                    assert(list[b0].ts_change >= ts);
                }
            }
            assert forall|i: int| 0 <= i < b0 - f implies (#[trigger] fresh[i]).ts_change < ts by {
                assert(fresh[i] == list[f + i]);
            }
            assert forall|i: int| b0 - f <= i < b - f implies ts <= (
            #[trigger] fresh[i]).ts_change < end by {
                assert(fresh[i] == list[f + i]);
            }
            assert forall|i: int| b - f <= i < fresh.len() implies (#[trigger] fresh[i]).ts_change
                >= end by {
                assert(fresh[i] == list[f + i]);
            }
            lemma_within_is_part(fresh, ts as int, end, b0 - f, b - f);
            assert(fresh.subrange(b0 - f, b - f) =~= list.subrange(b0, b));
        }
    }
    assert(held.subrange(d, held.len() as int) + list.subrange(b0, b) =~= list.subrange(a, b));
}

/// The sum over segments, each value weighed by `f`.
pub open spec fn weighed(segments: Seq<Segment>, f: spec_fn(Key) -> int) -> int
    decreases segments.len(),
{
    if segments.len() == 0 {
        0
    } else {
        weighed(segments.drop_last(), f) + f(segments.last().value) * segments.last().millis
    }
}

/// Samples in order, all with a value, on whole milliseconds.
pub open spec fn are_steady(samples: Seq<Sample>) -> bool {
    &&& history::in_order(history::stamps(samples))
    &&& forall|i: int| 0 <= i < samples.len() ==> (#[trigger] samples[i]).value is Some
    &&& forall|i: int|
        0 <= i < samples.len() ==> (#[trigger] samples[i]).ts as int % (MILLI_US as int) == 0
}

/// The milliseconds from an instant on within a span.
spec fn overlap(ts: int, start: int, end: int) -> int {
    if ts >= end {
        0
    } else if ts <= start {
        (end - start) / (MILLI_US as int)
    } else {
        (end - ts) / (MILLI_US as int)
    }
}

/// The sum over a span of the first `k` samples, each holding from its instant on.
spec fn held_sum(samples: Seq<Sample>, f: spec_fn(Key) -> int, start: int, end: int, k: int) -> int
    decreases k,
{
    if k <= 0 {
        0
    } else {
        let before = if k == 1 {
            0
        } else {
            f(samples[k - 2].value->0)
        };
        held_sum(samples, f, start, end, k - 1) + (f(samples[k - 1].value->0) - before) * overlap(
            samples[k - 1].ts as int,
            start,
            end,
        )
    }
}

proof fn lemma_held_sum_adds(
    samples: Seq<Sample>,
    f: spec_fn(Key) -> int,
    a: int,
    b: int,
    c: int,
    k: int,
)
    requires
        0 <= k <= samples.len(),
        are_steady(samples),
        a <= b <= c,
        a % (MILLI_US as int) == 0,
        b % (MILLI_US as int) == 0,
        c % (MILLI_US as int) == 0,
    ensures
        held_sum(samples, f, a, c, k) == held_sum(samples, f, a, b, k) + held_sum(
            samples,
            f,
            b,
            c,
            k,
        ),
    decreases k,
{
    if k > 0 {
        lemma_held_sum_adds(samples, f, a, b, c, k - 1);
        let ts = samples[k - 1].ts as int;
        assert(samples[k - 1].ts as int % (MILLI_US as int) == 0);
        assert(overlap(ts, a, c) == overlap(ts, a, b) + overlap(ts, b, c));
        let before = if k == 1 {
            0
        } else {
            f(samples[k - 2].value->0)
        };
        let g = f(samples[k - 1].value->0) - before;
        assert(g * (overlap(ts, a, b) + overlap(ts, b, c)) == g * overlap(ts, a, b) + g * overlap(
            ts,
            b,
            c,
        )) by (nonlinear_arith);
    }
}

/// Where samples in order pass an instant.
proof fn lemma_pass(samples: Seq<Sample>, t: int) -> (k: int)
    requires
        history::in_order(history::stamps(samples)),
    ensures
        0 <= k <= samples.len(),
        forall|i: int| 0 <= i < k ==> (#[trigger] samples[i]).ts <= t,
        forall|i: int| k <= i < samples.len() ==> (#[trigger] samples[i]).ts > t,
    decreases samples.len(),
{
    let ts = history::stamps(samples);
    if samples.len() == 0 {
        0
    } else if samples.last().ts <= t {
        assert forall|i: int| 0 <= i < samples.len() implies (#[trigger] samples[i]).ts <= t by {
            assert(ts[i] <= ts[samples.len() - 1]);
        }
        samples.len() as int
    } else {
        let rest = samples.drop_last();
        assert(history::in_order(history::stamps(rest))) by {
            let st = history::stamps(rest);
            assert forall|a: int, b: int| 0 <= a <= b < st.len() implies st[a] <= st[b] by {
                assert(ts[a] <= ts[b]);
            }
        }
        let k = lemma_pass(rest, t);
        assert forall|i: int| 0 <= i < k implies (#[trigger] samples[i]).ts <= t by {
            assert(rest[i] == samples[i]);
        }
        assert forall|i: int| k <= i < samples.len() implies (#[trigger] samples[i]).ts > t by {
            if i < samples.len() - 1 {
                assert(rest[i] == samples[i]);
            }
        }
        k
    }
}

/// Up to the samples at the start of a span the last of them fills it.
proof fn lemma_held_sum_start(
    samples: Seq<Sample>,
    f: spec_fn(Key) -> int,
    start: int,
    end: int,
    k: int,
)
    requires
        0 < k <= samples.len(),
        start <= end,
        forall|i: int| 0 <= i < k ==> (#[trigger] samples[i]).ts <= start,
    ensures
        held_sum(samples, f, start, end, k) == f(samples[k - 1].value->0) * ((end - start) / (
        MILLI_US as int)),
    decreases k,
{
    let span = (end - start) / (MILLI_US as int);
    let v = f(samples[k - 1].value->0);
    assert(samples[k - 1].ts <= start);
    if k == 1 {
        assert(held_sum(samples, f, start, end, 0) == 0);
        assert((v - 0) * span == v * span) by (nonlinear_arith);
        if start == end {
            assert(span == 0);
            assert(v * span == 0) by (nonlinear_arith)
                requires
                    span == 0,
            ;
            assert((v - 0) * 0 == 0) by (nonlinear_arith);
        }
    } else {
        lemma_held_sum_start(samples, f, start, end, k - 1);
        let u = f(samples[k - 2].value->0);
        assert(u * span + (v - u) * span == v * span) by (nonlinear_arith);
        if start == end {
            assert(span == 0);
            assert(u * span == 0 && v * span == 0 && (v - u) * 0 == 0) by (nonlinear_arith)
                requires
                    span == 0,
            ;
        }
    }
}

/// Samples after the end of a span add nothing.
proof fn lemma_held_sum_end(
    samples: Seq<Sample>,
    f: spec_fn(Key) -> int,
    start: int,
    end: int,
    e: int,
    k: int,
)
    requires
        0 <= e <= k <= samples.len(),
        forall|i: int| e <= i < samples.len() ==> (#[trigger] samples[i]).ts > end,
    ensures
        held_sum(samples, f, start, end, k) == held_sum(samples, f, start, end, e),
    decreases k,
{
    if k > e {
        lemma_held_sum_end(samples, f, start, end, e, k - 1);
        assert(samples[k - 1].ts > end);
        let before = if k == 1 {
            0
        } else {
            f(samples[k - 2].value->0)
        };
        assert((f(samples[k - 1].value->0) - before) * 0 == 0) by (nonlinear_arith);
    }
}

/// How far a walk has come after the first `k` samples: what it has summed up and what
/// the last value would add until the end of the span make the sum of the samples.
proof fn lemma_walk_sum(
    samples: Seq<Sample>,
    f: spec_fn(Key) -> int,
    start: int,
    end: int,
    first: Key,
    from: int,
    p: int,
    e: int,
    k: int,
)
    requires
        are_steady(samples),
        start < end,
        start % (MILLI_US as int) == 0,
        end % (MILLI_US as int) == 0,
        0 <= from <= p <= k <= e <= samples.len(),
        0 < p,
        forall|i: int| 0 <= i < p ==> (#[trigger] samples[i]).ts <= start,
        forall|i: int| p <= i < e ==> start < (#[trigger] samples[i]).ts <= end,
        from == p ==> first == samples[p - 1].value->0,
        -9_200_000_000_000_000_000 <= start,
        end <= 9_200_000_000_000_000_000,
    ensures
        ({
            let (w, over) = walk(samples, start, end, first, from, k);
            &&& !over
            &&& start <= w.cursor <= end
            &&& w.cursor % (MILLI_US as int) == 0
            &&& w.last == samples[k - 1].value->0
            &&& w.cursor == if k == p {
                start
            } else {
                samples[k - 1].ts as int
            }
            &&& weighed(w.segments, f) + f(w.last) * ((end - w.cursor) / (MILLI_US as int))
                == held_sum(samples, f, start, end, k)
        }),
    decreases k,
{
    if k == p {
        lemma_walk_start(samples, start, end, first, from, p);
        lemma_held_sum_start(samples, f, start, end, p);
    } else {
        lemma_walk_sum(samples, f, start, end, first, from, p, e, k - 1);
        let (w, over) = walk(samples, start, end, first, from, k - 1);
        let s = samples[k - 1];
        let st = history::stamps(samples);
        assert(start < s.ts <= end);
        assert(s.value is Some);
        assert(s.ts as int % (MILLI_US as int) == 0);
        assert(w.cursor <= s.ts) by {
            if k - 1 > p {
                assert(st[k - 2] <= st[k - 1]);
            }
        }
        let dt = (s.ts - w.cursor) / (MILLI_US as int);
        let rest = (end - s.ts) / (MILLI_US as int);
        let u = f(w.last);
        let v = f(s.value->0);
        assert((end - w.cursor) / (MILLI_US as int) == dt + rest);
        let (now, _) = walk(samples, start, end, first, from, k);
        assert(weighed(now.segments, f) == weighed(w.segments, f) + u * dt) by {
            if dt > 0 {
                let seg = Segment { value: w.last, millis: dt as i64 };
                assert(now.segments == w.segments.push(seg));
                assert(now.segments.drop_last() =~= w.segments);
                assert(seg.millis == dt);
            } else {
                assert(dt == 0);
                assert(u * dt == 0) by (nonlinear_arith)
                    requires
                        dt == 0,
                ;
            }
        }
        assert(u * (dt + rest) == u * dt + u * rest) by (nonlinear_arith);
        assert(u * rest + (v - u) * rest == v * rest) by (nonlinear_arith);
        assert(overlap(s.ts as int, start, end) == rest) by {
            if s.ts == end {
                assert(rest == 0);
            }
        }
        assert(w.last == samples[k - 2].value->0);
        assert(k >= 2);
    }
}

/// A walk over samples no later than the start of its span only remembers the last.
proof fn lemma_walk_start(
    samples: Seq<Sample>,
    start: int,
    end: int,
    first: Key,
    from: int,
    k: int,
)
    requires
        0 <= from <= k <= samples.len(),
        start < end,
        forall|i: int| 0 <= i < samples.len() ==> (#[trigger] samples[i]).value is Some,
        forall|i: int| from <= i < k ==> (#[trigger] samples[i]).ts <= start,
    ensures
        walk(samples, start, end, first, from, k) == (
            Walk {
                cursor: start,
                last: if k == from {
                    first
                } else {
                    samples[k - 1].value->0
                },
                segments: Seq::empty(),
            },
            false,
        ),
    decreases k - from,
{
    if k > from {
        lemma_walk_start(samples, start, end, first, from, k - 1);
        assert(samples[k - 1].ts <= start);
        assert(samples[k - 1].value is Some);
    }
}

/// A walk is over with the first sample after the end of its span.
proof fn lemma_walk_over(
    samples: Seq<Sample>,
    start: int,
    end: int,
    first: Key,
    from: int,
    e: int,
    k: int,
)
    requires
        0 <= from <= e <= k <= samples.len(),
        forall|i: int| e <= i < samples.len() ==> (#[trigger] samples[i]).ts > end,
    ensures
        walk(samples, start, end, first, from, k).0 == walk(
            samples,
            start,
            end,
            first,
            from,
            e,
        ).0,
    decreases k,
{
    if k > e {
        lemma_walk_over(samples, start, end, first, from, e, k - 1);
        assert(samples[k - 1].ts > end);
    }
}

/// The area of a span is the sum of its samples, if one of them is known by its start.
proof fn lemma_area_is_held_sum(samples: Seq<Sample>, f: spec_fn(Key) -> int, start: int, end: int)
    requires
        are_steady(samples),
        samples.len() > 0,
        samples[0].ts <= start < end,
        start % (MILLI_US as int) == 0,
        end % (MILLI_US as int) == 0,
        -9_200_000_000_000_000_000 <= start,
        end <= 9_200_000_000_000_000_000,
    ensures
        area(samples, start, end) is Some,
        weighed(area(samples, start, end)->0, f) == held_sum(
            samples,
            f,
            start,
            end,
            samples.len() as int,
        ),
{
    let n = samples.len() as int;
    let st = history::stamps(samples);
    let p = lemma_pass(samples, start);
    let e = lemma_pass(samples, end);
    assert(p > 0) by {
        if p == 0 {
            assert(samples[0].ts > start);
        }
    }
    assert(p <= e) by {
        if e < p {
            assert(samples[e].ts <= start);
        }
    }
    law_latest(samples, end, n);
    law_latest(samples, start, n);
    assert(latest(samples, start, n) == Some(p - 1)) by {
        assert(samples[p - 1].ts <= start && samples[p - 1].value is Some);
        let i = latest(samples, start, n)->0;
        if i < p - 1 {
            assert(!(samples[p - 1].ts <= start && samples[p - 1].value is Some));
        }
    }
    assert(latest_value(samples, end) is Some) by {
        assert(samples[e - 1].ts <= end && samples[e - 1].value is Some);
    }
    let from = history::first_at_or_after(st, start as i64);
    history::lemma_first_at_or_after(st, start as i64);
    assert(from <= p) by {
        if p < from {
            assert(st[p] < start);
            assert(samples[p].ts > start);
        }
    }
    let first = samples[p - 1].value->0;
    lemma_walk_sum(samples, f, start, end, first, from, p, e, e);
    lemma_walk_over(samples, start, end, first, from, e, n);
    lemma_held_sum_end(samples, f, start, end, e, n);
    let (w, _) = walk(samples, start, end, first, from, n);
    let segments = walked(samples, start, end, first, from);
    let rest = (end - w.cursor) / (MILLI_US as int);
    if w.cursor < end {
        let seg = Segment { value: w.last, millis: rest as i64 };
        assert(rest > 0);
        assert(segments == w.segments.push(seg));
        assert(segments.drop_last() =~= w.segments);
        assert(seg.millis == rest);
    } else {
        assert(rest == 0);
        assert(f(w.last) * rest == 0) by (nonlinear_arith)
            requires
                rest == 0,
        ;
    }
}

/// The area of a span is that of its parts together, whatever the values weigh, for
/// samples in order on whole milliseconds, the first of them known by the start.
pub proof fn law_area_is_additive(
    samples: Seq<Sample>,
    f: spec_fn(Key) -> int,
    a: int,
    b: int,
    c: int,
)
    requires
        are_steady(samples),
        samples.len() > 0,
        samples[0].ts <= a < b < c,
        a % (MILLI_US as int) == 0,
        b % (MILLI_US as int) == 0,
        c % (MILLI_US as int) == 0,
        -9_200_000_000_000_000_000 <= a,
        c <= 9_200_000_000_000_000_000,
    ensures
        area(samples, a, b) is Some,
        area(samples, b, c) is Some,
        area(samples, a, c) is Some,
        weighed(area(samples, a, c)->0, f) == weighed(area(samples, a, b)->0, f) + weighed(
            area(samples, b, c)->0,
            f,
        ),
{
    lemma_area_is_held_sum(samples, f, a, b);
    lemma_area_is_held_sum(samples, f, b, c);
    lemma_area_is_held_sum(samples, f, a, c);
    lemma_held_sum_adds(samples, f, a, b, c, samples.len() as int);
}

/// A window that moves on keeps its area right: the area of its new span is that of its
/// old one with what came in added and what went out taken away.
pub proof fn law_rolled_area_is_whole_area(
    samples: Seq<Sample>,
    f: spec_fn(Key) -> int,
    old_start: int,
    old_end: int,
    start: int,
    end: int,
)
    requires
        are_steady(samples),
        samples.len() > 0,
        samples[0].ts <= old_start < start,
        start < end,
        old_start < old_end < end,
        old_start % (MILLI_US as int) == 0,
        old_end % (MILLI_US as int) == 0,
        start % (MILLI_US as int) == 0,
        end % (MILLI_US as int) == 0,
        -9_200_000_000_000_000_000 <= old_start,
        end <= 9_200_000_000_000_000_000,
    ensures
        weighed(area(samples, start, end)->0, f) == weighed(
            area(samples, old_start, old_end)->0,
            f,
        ) + weighed(area(samples, old_end, end)->0, f) - weighed(
            area(samples, old_start, start)->0,
            f,
        ),
{
    law_area_is_additive(samples, f, old_start, old_end, end);
    law_area_is_additive(samples, f, old_start, start, end);
}

proof fn lemma_already_sorted(sorted: Seq<Sample>, samples: Seq<Sample>)
    requires
        is_sorted_form(sorted, samples),
        history::in_order(history::stamps(samples)),
        samples.len() <= usize::MAX,
    ensures
        sorted == samples,
{
    let ts = history::stamps(samples);
    let places = Seq::new(samples.len(), |a: int| a as usize);
    assert(is_time_order(places, ts)) by {
        assert forall|a: int, b: int| 0 <= a < b < places.len() implies comes_first(
            ts,
            #[trigger] places[a],
            #[trigger] places[b],
        ) by {
            assert(ts[a] <= ts[b]);
        }
    }
    let same = Seq::new(places.len(), |a: int| samples[places[a] as int]);
    assert(same =~= samples);
    assert(is_sorted_form(samples, samples));
    law_sorted_form_is_unique(sorted, samples, samples);
}

/// Samples after an instant do not matter to the latest value at it.
proof fn lemma_latest_stops(samples: Seq<Sample>, t: int, g: int, hi: int)
    requires
        0 <= g <= hi <= samples.len(),
        forall|i: int| g <= i < hi ==> (#[trigger] samples[i]).ts > t,
    ensures
        latest(samples, t, hi) == latest(samples, t, g),
    decreases hi,
{
    if hi > g {
        assert(samples[hi - 1].ts > t);
        lemma_latest_stops(samples, t, g, hi - 1);
    }
}

/// Over samples up to its start a walk only takes the latest value over.
proof fn lemma_walk_to_start(
    samples: Seq<Sample>,
    start: int,
    end: int,
    first: Key,
    from: int,
    to: int,
)
    requires
        0 <= from <= to <= samples.len(),
        start <= end,
        forall|i: int| 0 <= i < to ==> (#[trigger] samples[i]).ts <= start,
    ensures
        walk(samples, start, end, first, from, to) == (
            Walk {
                cursor: start,
                last: match latest(samples, start, to) {
                    Some(i) => if i >= from {
                        samples[i].value->0
                    } else {
                        first
                    },
                    None => first,
                },
                segments: Seq::empty(),
            },
            false,
        ),
    decreases to - from,
{
    if to > from {
        lemma_walk_to_start(samples, start, end, first, from, to - 1);
        assert(samples[to - 1].ts <= start);
    } else {
        law_latest(samples, start, to);
    }
}

/// Two walks that agree at a place agree from there on.
proof fn lemma_walks_agree(
    samples: Seq<Sample>,
    start: int,
    end: int,
    first: Key,
    a: int,
    b: int,
    g: int,
    to: int,
)
    requires
        a <= g,
        b <= g,
        g <= to,
        walk(samples, start, end, first, a, g) == walk(samples, start, end, first, b, g),
    ensures
        walk(samples, start, end, first, a, to) == walk(samples, start, end, first, b, to),
    decreases to - g,
{
    if to > g {
        lemma_walks_agree(samples, start, end, first, a, b, g, to - 1);
    }
}

/// Whether an average over a span is that of the area over it: none without an area,
/// over its segments where it has any.
pub open spec fn averages_area(average: TimeAverage, area: Option<Seq<Segment>>) -> bool {
    match area {
        None => average is Unknown,
        Some(segments) => if segments.len() == 0 {
            average is Value
        } else {
            average matches TimeAverage::Over(s) && s@ == segments
        },
    }
}

#[verifier::rlimit(30)]
proof fn lemma_average_is_of_area(
    samples: Seq<Sample>,
    start: int,
    end: int,
    current: Option<Key>,
    current_ts: Option<i64>,
    average: TimeAverage,
)
    requires
        have_metrics(samples, start, end, current, current_ts, average),
        history::in_order(history::stamps(samples)),
        samples.len() <= usize::MAX,
        i64::MIN <= start < end,
        start <= i64::MAX,
        latest_value(samples, end) is Some || no_values(samples),
    ensures
        current == latest_value(samples, end),
        current_ts == latest_ts(samples, end),
        averages_area(average, area(samples, start, end)),
{
    let sorted = choose|sorted: Seq<Sample>|
        #[trigger] is_sorted_form(sorted, samples) && are_metrics_of(
            sorted,
            start,
            end,
            current,
            current_ts,
            average,
        );
    lemma_already_sorted(sorted, samples);
    let n = samples.len() as int;
    let ts = history::stamps(samples);
    law_latest(samples, end, n);
    law_latest(samples, start, n);
    if latest_value(samples, end) is Some {
        let i = latest(samples, end, n)->0;
        assert(samples[i].value is Some);
        assert(!no_values(samples));
        let first = value_or(samples, start, current)->0;
        let from = history::first_at_or_after(ts, start as i64);
        history::lemma_first_at_or_after(ts, start as i64);
        // the place where the samples pass the start
        let g = lemma_passes(samples, start);
        assert(from <= g) by {
            if g < from {
                assert(ts[g] < start);
                assert(samples[g].ts > start);
            }
        }
        lemma_latest_stops(samples, start, g, n);
        lemma_walk_to_start(samples, start, end, first, from, g);
        lemma_walk_to_start(samples, start, end, first, 0, g);
        law_latest(samples, start, g);
        lemma_walks_agree(samples, start, end, first, 0, from, g, n);
    }
}

proof fn lemma_passes(samples: Seq<Sample>, t: int) -> (g: int)
    requires
        history::in_order(history::stamps(samples)),
    ensures
        0 <= g <= samples.len(),
        forall|i: int| 0 <= i < g ==> (#[trigger] samples[i]).ts <= t,
        forall|i: int| g <= i < samples.len() ==> (#[trigger] samples[i]).ts > t,
    decreases samples.len(),
{
    let ts = history::stamps(samples);
    let n = samples.len() as int;
    if n == 0 {
        0
    } else if samples[n - 1].ts <= t {
        assert forall|i: int| 0 <= i < n implies (#[trigger] samples[i]).ts <= t by {
            assert(ts[i] <= ts[n - 1]);
        }
        n
    } else {
        let rest = samples.drop_last();
        assert(history::in_order(history::stamps(rest))) by {
            let st = history::stamps(rest);
            assert forall|a: int, b: int| 0 <= a <= b < st.len() implies st[a] <= st[b] by {
                assert(ts[a] <= ts[b]);
            }
        }
        let g = lemma_passes(rest, t);
        assert forall|i: int| 0 <= i < g implies (#[trigger] samples[i]).ts <= t by {
            assert(rest[i] == samples[i]);
        }
        assert forall|i: int| g <= i < n implies (#[trigger] samples[i]).ts > t by {
            if i < n - 1 {
                assert(rest[i] == samples[i]);
            }
        }
        g
    }
}

/// The rows at places of a list.
pub open spec fn rows_at(changes: Seq<FundingChange>, places: Seq<usize>) -> Seq<FundingChange> {
    places.map_values(|i: usize| changes[i as int])
}

proof fn lemma_within_are_rows(
    changes: Seq<FundingChange>,
    start: int,
    end: int,
    places: Seq<int>,
    hi: int,
)
    requires
        0 <= hi <= changes.len(),
        places == windows::places_within(history::stamps(changes), start - 1, end - 1, hi),
    ensures
        changes_within(changes.take(hi), start, end) == places.map_values(|i: int| changes[i]),
    decreases hi,
{
    let f = |i: int| changes[i];
    let ts = history::stamps(changes);
    if hi > 0 {
        let rest = windows::places_within(ts, start - 1, end - 1, hi - 1);
        lemma_within_are_rows(changes, start, end, rest, hi - 1);
        assert(changes.take(hi).drop_last() =~= changes.take(hi - 1));
        assert(changes.take(hi).last() == changes[hi - 1]);
        assert(ts[hi - 1] == changes[hi - 1].ts_change);
        assert(rest.push(hi - 1).map_values(f) =~= rest.map_values(f).push(changes[hi - 1]));
    } else {
        assert(places.map_values(f) =~= Seq::<FundingChange>::empty());
    }
}

/// Whether a state says of a kept window what the metrics of that window say: the same
/// current values, averages over the same segments, and the same changes. The last index
/// is that of the state where the state has one.
pub open spec fn keeps_metrics(
    m: FundingModel,
    input: FundingInput,
    ts: i64,
    w: int,
    metrics: FundingWindowMetrics,
) -> bool {
    let end = ts + MINUTE_US;
    let start = end - kept_minutes()[w] * MINUTE_US;
    &&& metrics.funding_current == latest_value(m.points, end)
    &&& metrics.funding_current_effective_ts == latest_ts(m.points, end)
    &&& averages_area(metrics.funding_twa, area(m.points, start, end))
    &&& m.windows[w].has_funding == !(metrics.funding_twa is Unknown)
    &&& metrics.mark_price_last == latest_value(m.marks, end)
    &&& metrics.mark_price_last_ts == latest_ts(m.marks, end)
    &&& averages_area(metrics.mark_price_twap, area(m.marks, start, end))
    &&& m.windows[w].has_mark == !(metrics.mark_price_twap is Unknown)
    &&& latest_value(m.indexes, end) is Some ==> metrics.index_price_last == latest_value(
        m.indexes,
        end,
    )
    &&& m.windows[w].changes == rows_at(input.changes, metrics.changes@)
}

/// A state that started over at a minute says of each kept window what the metrics of
/// that window say: the same current values, averages over the same segments, and the
/// same changes. The samples have to be in order; where samples have values, but none
/// by the end of the minute, the metrics still report an average and the state does not.
#[verifier::rlimit(60)]
#[verifier::spinoff_prover]
pub proof fn law_kept_window_has_its_metrics(
    input: FundingInput,
    index_now: Seq<Sample>,
    ts: i64,
    w: int,
    metrics: FundingWindowMetrics,
)
    requires
        0 <= w < 8,
        -clock::DATE_LIMIT_US <= ts <= clock::DATE_LIMIT_US,
        are_window_metrics(metrics, input, index_now, ts, kept_minutes()[w]),
        history::in_order(history::stamps(input.points)),
        history::in_order(history::stamps(input.marks)),
        input.points.len() <= usize::MAX,
        input.marks.len() <= usize::MAX,
        latest_value(input.points, ts + MINUTE_US) is Some || no_values(input.points),
        latest_value(input.marks, ts + MINUTE_US) is Some || no_values(input.marks),
    ensures
        keeps_metrics(rebuilt(ts, input), input, ts, w, metrics),
{
    let end = ts + MINUTE_US;
    let mins = kept_minutes()[w];
    lemma_kept_minutes(w);
    let start = end - mins * MINUTE_US;
    assert(MINUTE_US <= mins * MINUTE_US <= 43_200 * MINUTE_US) by (nonlinear_arith)
        requires
            1 <= mins <= 43_200,
    ;
    lemma_average_is_of_area(
        input.points,
        start,
        end,
        metrics.funding_current,
        metrics.funding_current_effective_ts,
        metrics.funding_twa,
    );
    lemma_average_is_of_area(
        input.marks,
        start,
        end,
        metrics.mark_price_last,
        metrics.mark_price_last_ts,
        metrics.mark_price_twap,
    );
    let places = windows::as_ints(metrics.changes@);
    lemma_within_are_rows(input.changes, start, end, places, input.changes.len() as int);
    assert(input.changes.take(input.changes.len() as int) =~= input.changes);
    assert(places.map_values(|i: int| input.changes[i]) =~= rows_at(
        input.changes,
        metrics.changes@,
    ));
}

proof fn lemma_kept_minutes(w: int)
    requires
        0 <= w < 8,
    ensures
        1 <= kept_minutes()[w] <= 43_200,
{
}

/// Every reported window is one of the kept ones.
pub proof fn law_reported_windows_are_kept(i: int)
    requires
        0 <= i < 7,
    ensures
        kept_minutes()[i + 1] == spec_windows()[i].1,
{
}

/// Every window is as long as its name says.
pub proof fn law_windows_are_named(w: int)
    requires
        0 <= w < 7,
    ensures
        clock::named_minutes(spec_windows()[w].0) == spec_windows()[w].1,
        kept_minutes()[0] == 1,
{
    clock::lemma_named_minutes();
}

/// The sum of what samples say at `n` instants a millisecond apart, each value weighed by `f`.
pub open spec fn sampled(samples: Seq<Sample>, f: spec_fn(Key) -> int, start: int, n: nat) -> int
    decreases n,
{
    if n == 0 {
        0
    } else {
        sampled(samples, f, start, (n - 1) as nat) + f(
            latest_value(samples, start + (n - 1) * 1000)->0,
        )
    }
}

proof fn lemma_one_millisecond(samples: Seq<Sample>, f: spec_fn(Key) -> int, start: int, k: int)
    requires
        are_steady(samples),
        0 < k <= samples.len(),
        samples[0].ts <= start,
        start % 1000 == 0,
    ensures
        latest(samples, start, k) is Some,
        held_sum(samples, f, start, start + 1000, k) == f(
            samples[latest(samples, start, k)->0].value->0,
        ),
        samples[k - 1].ts <= start ==> latest(samples, start, k) == Some(k - 1),
    decreases k,
{
    reveal_with_fuel(held_sum, 2);
    let s = samples[k - 1];
    assert(s.ts as int % 1000 == 0 && s.value is Some);
    let part = overlap(s.ts as int, start, start + 1000);
    assert(s.ts <= start ==> part == 1);
    assert(s.ts > start ==> part == 0) by {
        if s.ts > start {
            assert(s.ts >= start + 1000);
        }
    }
    let before = if k == 1 {
        0
    } else {
        f(samples[k - 2].value->0)
    };
    let value = f(s.value->0);
    assert((value - before) * part == if s.ts <= start {
        value - before
    } else {
        0
    }) by (nonlinear_arith)
        requires
            s.ts <= start ==> part == 1,
            s.ts > start ==> part == 0,
    ;
    if k > 1 {
        lemma_one_millisecond(samples, f, start, k - 1);
        let st = history::stamps(samples);
        assert(st[k - 2] <= st[k - 1]);
        assert(samples[k - 2].ts <= s.ts);
    }
}

/// The area of a span is the sum, over its milliseconds, of the value in force in each of
/// them: the latest at its start. The samples are in order and on whole milliseconds, the first
/// of them known by the start of the span.
pub proof fn law_area_is_of_values_in_force(
    samples: Seq<Sample>,
    f: spec_fn(Key) -> int,
    start: int,
    n: nat,
)
    requires
        are_steady(samples),
        samples.len() > 0,
        samples[0].ts <= start,
        start % 1000 == 0,
        n > 0,
        -9_200_000_000_000_000_000 <= start,
        start + n * 1000 <= 9_200_000_000_000_000_000,
    ensures
        area(samples, start, start + n * 1000) is Some,
        weighed(area(samples, start, start + n * 1000)->0, f) == sampled(samples, f, start, n),
    decreases n,
{
    let last = start + (n - 1) * 1000;
    lemma_area_is_held_sum(samples, f, last, last + 1000);
    lemma_one_millisecond(samples, f, last, samples.len() as int);
    reveal_with_fuel(sampled, 2);
    if n > 1 {
        law_area_is_of_values_in_force(samples, f, start, (n - 1) as nat);
        law_area_is_additive(samples, f, start, last, last + 1000);
    }
}

proof fn lemma_walk_starts_with(
    samples: Seq<Sample>,
    start: int,
    end: int,
    first: Key,
    from: int,
    to: int,
)
    requires
        0 <= from <= to <= samples.len(),
        forall|i: int|
            from <= i < to && (#[trigger] samples[i]).value is Some ==> samples[i].ts >= start
                + 1000,
    ensures
        ({
            let (w, over) = walk(samples, start, end, first, from, to);
            &&& w.segments.len() == 0 ==> w.cursor == start && w.last == first
            &&& w.segments.len() > 0 ==> w.segments[0].value == first
        }),
    decreases to - from,
{
    if from < to {
        lemma_walk_starts_with(samples, start, end, first, from, to - 1);
    }
}

/// Where nothing is known by the start of a span, its area begins with the value that is known
/// at its end, which holds until the first sample.
pub proof fn law_area_before_the_first_sample(samples: Seq<Sample>, start: int, end: int)
    requires
        start + 1000 <= end,
        i64::MIN <= start,
        end <= i64::MAX,
        history::in_order(history::stamps(samples)),
        forall|i: int|
            0 <= i < samples.len() && (#[trigger] samples[i]).value is Some ==> samples[i].ts
                >= start + 1000,
        latest_value(samples, end) is Some,
    ensures
        area(samples, start, end) is Some,
        area(samples, start, end)->0.len() > 0,
        Some(area(samples, start, end)->0[0].value) == latest_value(samples, end),
{
    let n = samples.len() as int;
    law_latest(samples, start, n);
    law_latest(samples, end, n);
    let first = latest_value(samples, end)->0;
    let from = history::first_at_or_after(history::stamps(samples), start as i64);
    history::lemma_first_at_or_after(history::stamps(samples), start as i64);
    lemma_walk_starts_with(samples, start, end, first, from, n);
    assert(latest_value(samples, start) is None);
}

/// A window whose area was known and rolls on: what is added and what is removed lead from the
/// area of its old span to that of its new one.
pub proof fn law_rolls_lead_on(
    step: AreaStep,
    samples: Seq<Sample>,
    f: spec_fn(Key) -> int,
    old_start: int,
    old_end: int,
    start: int,
    end: int,
)
    requires
        is_roll(step, true, samples, old_start, old_end, start, end),
        are_steady(samples),
        samples.len() > 0,
        samples[0].ts <= old_start < start,
        start < end,
        old_start < old_end < end,
        old_start % 1000 == 0,
        old_end % 1000 == 0,
        start % 1000 == 0,
        end % 1000 == 0,
        -9_200_000_000_000_000_000 <= old_start,
        end <= 9_200_000_000_000_000_000,
    ensures
        step matches AreaStep::Roll { add, remove } && weighed(
            area(samples, old_start, old_end)->0,
            f,
        ) + weighed(add@, f) - weighed(remove@, f) == weighed(area(samples, start, end)->0, f),
{
    law_area_is_additive(samples, f, old_start, old_end, end);
    law_area_is_additive(samples, f, old_start, start, end);
    assert(MILLI_US == 1000);
}

proof fn lemma_places_sorted(samples: Seq<Sample>, sorted: Seq<Sample>)
    requires
        is_sorted_form(sorted, samples),
        samples.len() <= usize::MAX,
    ensures
        forall|s: Sample| #[trigger] sorted.contains(s) <==> samples.contains(s),
        history::in_order(history::stamps(sorted)),
{
    let places = choose|places: Seq<usize>|
        #[trigger] is_time_order(places, history::stamps(samples)) && sorted == Seq::new(
            places.len(),
            |a: int| samples[places[a] as int],
        );
    let ts = history::stamps(samples);
    assert forall|a: int, b: int| 0 <= a <= b < sorted.len() implies history::stamps(sorted)[a]
        <= history::stamps(sorted)[b] by {
        if a < b {
            assert(comes_first(ts, places[a], places[b]));
        }
        assert(sorted[a] == samples[places[a] as int] && sorted[b] == samples[places[b] as int]);
    }
    assert forall|a: int, b: int| 0 <= a < b < places.len() implies places[a] != places[b] by {
        assert(comes_first(ts, places[a], places[b]));
    }
    let ints = Seq::new(places.len(), |a: int| places[a] as int);
    assert(ints.no_duplicates()) by {
        assert forall|a: int, b: int|
            0 <= a < ints.len() && 0 <= b < ints.len() && a != b implies ints[a] != ints[b] by {
            if a < b {
                assert(places[a] != places[b]);
            } else {
                assert(places[b] != places[a]);
            }
        }
    }
    let n = samples.len() as int;
    ints.unique_seq_to_set();
    let all = vstd::set_lib::set_int_range(0, n);
    vstd::set_lib::lemma_int_range(0, n);
    assert(ints.to_set().subset_of(all)) by {
        assert forall|x: int| ints.to_set().contains(x) implies all.contains(x) by {
            let a = choose|a: int| 0 <= a < ints.len() && ints[a] == x;
            assert(places[a] < ts.len());
        }
    }
    vstd::set_lib::lemma_subset_equality(ints.to_set(), all);
    assert forall|s: Sample| #[trigger] sorted.contains(s) <==> samples.contains(s) by {
        if sorted.contains(s) {
            let a = choose|a: int| 0 <= a < sorted.len() && sorted[a] == s;
            assert(samples[places[a] as int] == s);
            assert(places[a] < ts.len());
        }
        if samples.contains(s) {
            let x = choose|x: int| 0 <= x < samples.len() && samples[x] == s;
            assert(all.contains(x));
            assert(ints.to_set().contains(x));
            let a = choose|a: int| 0 <= a < ints.len() && ints[a] == x;
            assert(sorted[a] == s);
        }
    }
}

/// Whether a value and its instant are the latest that samples, in any order, say by the end
/// of a span: the value of a sample that is not after it, with no later one that has a value;
/// none where no sample has one by then.
pub open spec fn is_latest_of(
    samples: Seq<Sample>,
    end: int,
    value: Option<Key>,
    ts: Option<i64>,
) -> bool {
    &&& value is Some <==> ts is Some
    &&& value is Some ==> samples.contains(Sample { ts: ts->0, value }) && ts->0 <= end
    &&& forall|i: int|
        0 <= i < samples.len() && (#[trigger] samples[i]).ts <= end && samples[i].value is Some
            ==> value is Some && samples[i].ts <= ts->0
}

proof fn lemma_metrics_latest(
    samples: Seq<Sample>,
    start: int,
    end: int,
    current: Option<Key>,
    current_ts: Option<i64>,
    average: TimeAverage,
)
    requires
        have_metrics(samples, start, end, current, current_ts, average),
        samples.len() <= usize::MAX,
    ensures
        is_latest_of(samples, end, current, current_ts),
        end <= start ==> average is Unknown,
        start < end ==> (average is Unknown <==> no_values(samples)),
{
    let sorted = choose|sorted: Seq<Sample>|
        #[trigger] is_sorted_form(sorted, samples) && are_metrics_of(
            sorted,
            start,
            end,
            current,
            current_ts,
            average,
        );
    lemma_places_sorted(samples, sorted);
    let n = sorted.len() as int;
    law_latest(sorted, end, n);
    if latest(sorted, end, n) is Some {
        let x = latest(sorted, end, n)->0;
        assert(sorted.contains(sorted[x]));
        assert(sorted[x] == (Sample { ts: current_ts->0, value: current }));
    }
    assert forall|i: int|
        0 <= i < samples.len() && (#[trigger] samples[i]).ts <= end && samples[i].value
            is Some implies current is Some && samples[i].ts <= current_ts->0 by {
        assert(samples.contains(samples[i]));
        assert(sorted.contains(samples[i]));
        let a = choose|a: int| 0 <= a < sorted.len() && sorted[a] == samples[i];
        let x = latest(sorted, end, n)->0;
        let st = history::stamps(sorted);
        assert(a <= x);
        assert(st[a] <= st[x]);
    }
    if no_values(samples) {
        assert forall|a: int| 0 <= a < sorted.len() implies (#[trigger] sorted[a]).value is None by {
            assert(sorted.contains(sorted[a]));
            let i = choose|i: int| 0 <= i < samples.len() && samples[i] == sorted[a];
            assert(samples[i].value is None);
        }
        assert(current is None);
        assert(latest_value(sorted, start) is None) by {
            law_latest(sorted, start, n);
        }
    } else {
        let i = choose|i: int| 0 <= i < samples.len() && (#[trigger] samples[i]).value is Some;
        assert(samples.contains(samples[i]));
        assert(sorted.contains(samples[i]));
        let a = choose|a: int| 0 <= a < sorted.len() && sorted[a] == samples[i];
        assert(sorted[a].value is Some);
    }
}

/// The metrics of the window of some minutes up to the end of a minute: the latest rate and
/// mark price by then with their instants, an average unless nothing has a value, and the
/// changes from the start of the window on and before its end.
pub proof fn law_window_metrics(
    out: FundingWindowMetrics,
    input: FundingInput,
    index_now: Seq<Sample>,
    ts_bucket: i64,
    mins: i64,
    i: int,
)
    requires
        are_window_metrics(out, input, index_now, ts_bucket, mins),
        mins > 0,
        input.points.len() <= usize::MAX,
        input.marks.len() <= usize::MAX,
        input.changes.len() <= usize::MAX,
        0 <= i < input.changes.len(),
    ensures
        is_latest_of(
            input.points,
            ts_bucket + 60_000_000,
            out.funding_current,
            out.funding_current_effective_ts,
        ),
        is_latest_of(
            input.marks,
            ts_bucket + 60_000_000,
            out.mark_price_last,
            out.mark_price_last_ts,
        ),
        out.funding_twa is Unknown <==> no_values(input.points),
        out.mark_price_twap is Unknown <==> no_values(input.marks),
        out.changes@.contains(i as usize) <==> ts_bucket + 60_000_000 - mins * 60_000_000
            <= input.changes[i].ts_change < ts_bucket + 60_000_000,
{
    let end = ts_bucket + MINUTE_US;
    let start = end - mins * MINUTE_US;
    assert(start < end) by (nonlinear_arith)
        requires
            mins > 0,
            start == end - mins * MINUTE_US,
    ;
    lemma_metrics_latest(
        input.points,
        start,
        end,
        out.funding_current,
        out.funding_current_effective_ts,
        out.funding_twa,
    );
    lemma_metrics_latest(
        input.marks,
        start,
        end,
        out.mark_price_last,
        out.mark_price_last_ts,
        out.mark_price_twap,
    );
    let ts = history::stamps(input.changes);
    windows::law_places_within(ts, start - 1, end - 1, input.changes.len() as int);
    let found = windows::as_ints(out.changes@);
    assert(ts[i] == input.changes[i].ts_change);
    if out.changes@.contains(i as usize) {
        let p = choose|p: int| 0 <= p < out.changes@.len() && out.changes@[p] == i as usize;
        assert(found[p] == i);
    }
    if found.contains(i) {
        let p = choose|p: int| 0 <= p < found.len() && found[p] == i;
        assert(out.changes@[p] == i as usize);
    }
}

proof fn lemma_kept<T: Stamped>(held: Seq<T>, added: Seq<T>, limit: int, row: T)
    requires
        history::in_order(history::stamps(held + added)),
    ensures
        history::drop_while(held + added, is_before::<T>(limit)).contains(row) <==> (held.contains(
            row,
        ) || added.contains(row)) && row.at() >= limit,
{
    let all = held + added;
    let st = history::stamps(all);
    let k = history::lemma_drop_while(all, is_before::<T>(limit));
    let kept = history::drop_while(all, is_before::<T>(limit));
    if kept.contains(row) {
        let a = choose|a: int| 0 <= a < kept.len() && kept[a] == row;
        assert(all[k + a] == row);
        assert(st[k] <= st[k + a]);
        if k + a < held.len() {
            assert(held[k + a] == row);
        } else {
            assert(added[k + a - held.len()] == row);
        }
    }
    if (held.contains(row) || added.contains(row)) && row.at() >= limit {
        let a = if held.contains(row) {
            choose|a: int| 0 <= a < held.len() && held[a] == row
        } else {
            held.len() + choose|a: int| 0 <= a < added.len() && added[a] == row
        };
        assert(all[a] == row);
        assert(a >= k);
        assert(kept[a - k] == row);
    }
}

proof fn lemma_new_rows<T: Stamped>(held: Seq<T>, list: Seq<T>, row: T)
    requires
        history::in_order(history::stamps(held)),
        history::in_order(history::stamps(list)),
        held.len() > 0 ==> held.last().at() < i64::MAX,
    ensures
        history::in_order(history::stamps(held + new_rows(held, list))),
        new_rows(held, list).contains(row) <==> list.contains(row) && (held.len() == 0
            || row.at() > held.last().at()),
{
    let st = history::stamps(list);
    let hs = history::stamps(held);
    let fresh = new_rows(held, list);
    let all = held + fresh;
    let f = if held.len() == 0 {
        0
    } else {
        history::first_at_or_after(st, (held.last().at() + 1) as i64)
    };
    if held.len() > 0 {
        history::lemma_first_at_or_after(st, (held.last().at() + 1) as i64);
    }
    assert(fresh =~= list.subrange(f, list.len() as int));
    assert forall|i: int, j: int| 0 <= i <= j < all.len() implies history::stamps(all)[i]
        <= history::stamps(all)[j] by {
        let h = held.len() as int;
        if j < h {
            assert(hs[i] <= hs[j]);
        } else if i >= h {
            assert(st[f + i - h] <= st[f + j - h]);
        } else {
            assert(hs[i] <= hs[h - 1]);
            assert(!(st[f + j - h] < held.last().at() + 1));
        }
    }
    if fresh.contains(row) {
        let a = choose|a: int| 0 <= a < fresh.len() && fresh[a] == row;
        assert(list[f + a] == row);
        if held.len() > 0 {
            assert(!(st[f + a] < held.last().at() + 1));
        }
    }
    if list.contains(row) && (held.len() == 0 || row.at() > held.last().at()) {
        let a = choose|a: int| 0 <= a < list.len() && list[a] == row;
        assert(held.len() > 0 ==> !(st[a] < held.last().at() + 1));
        assert(fresh[a - f] == row);
    }
}

/// What is held, and what of it can follow: rows in order, the last not at the end of time.
pub open spec fn can_follow<T: Stamped>(held: Seq<T>, list: Seq<T>) -> bool {
    &&& history::in_order(history::stamps(held))
    &&& history::in_order(history::stamps(list))
    &&& held.len() > 0 ==> held.last().at() < i64::MAX
}

/// Whether a row is remembered from an instant on: it was held or comes after all that was.
pub open spec fn is_remembered<T: Stamped>(held: Seq<T>, list: Seq<T>, row: T, limit: int) -> bool {
    &&& row.at() >= limit
    &&& held.contains(row) || (list.contains(row) && (held.len() == 0 || row.at()
        > held.last().at()))
}

/// The next minute brings what comes after all that was held, and forgets the samples that are
/// older than thirty days and a minute before its end, and the changes older than thirty days.
pub proof fn law_memory(
    m: FundingModel,
    ts: i64,
    input: FundingInput,
    s: Sample,
    change: FundingChange,
)
    requires
        m.last_ts == Some((ts - 60_000_000) as i64),
        ts >= i64::MIN + 60_000_000,
        can_follow(m.points, input.points),
        can_follow(m.marks, input.marks),
        can_follow(m.indexes, input.indexes),
        can_follow(m.changes, input.changes),
    ensures
        ({
            let after = synced(m, ts, input);
            let limit = ts - 2_592_000_000_000;
            &&& after.points.contains(s) <==> is_remembered(m.points, input.points, s, limit)
            &&& after.marks.contains(s) <==> is_remembered(m.marks, input.marks, s, limit)
            &&& after.indexes.contains(s) <==> is_remembered(m.indexes, input.indexes, s, limit)
            &&& after.changes.contains(change) <==> is_remembered(
                m.changes,
                input.changes,
                change,
                limit + 60_000_000,
            )
            &&& after.last_ts == Some(ts)
        }),
{
    let end = ts + MINUTE_US;
    lemma_new_rows(m.points, input.points, s);
    lemma_new_rows(m.marks, input.marks, s);
    lemma_new_rows(m.indexes, input.indexes, s);
    lemma_new_rows(m.changes, input.changes, change);
    lemma_kept(m.points, new_rows(m.points, input.points), end - MEMORY_US - MINUTE_US, s);
    lemma_kept(m.marks, new_rows(m.marks, input.marks), end - MEMORY_US - MINUTE_US, s);
    lemma_kept(m.indexes, new_rows(m.indexes, input.indexes), end - MEMORY_US - MINUTE_US, s);
    lemma_kept(m.changes, new_rows(m.changes, input.changes), end - MEMORY_US, change);
}

/// A minute that has been seen changes nothing, and one that is not the next after the last
/// leaves what starting over at it leaves.
pub proof fn law_seen_minutes_and_gaps(m: FundingModel, ts: i64, input: FundingInput)
    ensures
        m.last_ts matches Some(last) && ts <= last ==> synced(m, ts, input) == m,
        m.last_ts matches Some(last) && ts > last && ts - last != 60_000_000 ==> synced(
            m,
            ts,
            input,
        ) == synced(nothing_held(), ts, input),
        synced(nothing_held(), ts, input).points == input.points,
        synced(nothing_held(), ts, input).marks == input.marks,
        synced(nothing_held(), ts, input).indexes == input.indexes,
        synced(nothing_held(), ts, input).changes == input.changes,
        synced(nothing_held(), ts, input).last_ts == Some(ts),
{
}

/// The changes within a span are those from its start on and before its end.
pub proof fn law_changes_within(
    changes: Seq<FundingChange>,
    start: int,
    end: int,
    change: FundingChange,
)
    ensures
        changes_within(changes, start, end).contains(change) <==> changes.contains(change)
            && start <= change.ts_change < end,
    decreases changes.len(),
{
    let out = changes_within(changes, start, end);
    if changes.len() > 0 {
        let less = changes.drop_last();
        let rest = changes_within(less, start, end);
        law_changes_within(less, start, end, change);
        if changes.contains(change) {
            let a = choose|a: int| 0 <= a < changes.len() && changes[a] == change;
            if a < less.len() {
                assert(less[a] == change);
            }
        }
        if less.contains(change) {
            let a = choose|a: int| 0 <= a < less.len() && less[a] == change;
            assert(changes[a] == change);
        }
        if out.contains(change) {
            let a = choose|a: int| 0 <= a < out.len() && out[a] == change;
            if a < rest.len() {
                assert(rest[a] == change);
            }
        }
        if rest.contains(change) {
            let a = choose|a: int| 0 <= a < rest.len() && rest[a] == change;
            assert(out[a] == change);
        }
        if changes.last() == change && start <= change.ts_change < end {
            assert(out[out.len() - 1] == change);
        }
        assert(changes[changes.len() - 1] == changes.last());
    }
}

/// The changes of a state that started over are those of the last seven days, and those of
/// each of its windows up to the end of the minute.
pub proof fn law_changes_after_starting_over(
    ts: i64,
    input: FundingInput,
    w: int,
    change: FundingChange,
)
    requires
        0 <= w < 8,
    ensures
        ({
            let m = rebuilt(ts, input);
            &&& m.recent.contains(change) <==> input.changes.contains(change) && change.ts_change
                >= ts + 60_000_000 - 604_800_000_000
            &&& m.windows[w].changes.contains(change) <==> input.changes.contains(change) && ts
                + 60_000_000 - kept_minutes()[w] * 60_000_000 <= change.ts_change < ts + 60_000_000
        }),
{
    let end = ts + MINUTE_US;
    law_changes_within(input.changes, end - RECENT_US, i64::MAX + 1, change);
    law_changes_within(input.changes, end - kept_minutes()[w] * MINUTE_US, end, change);
}

/// A report has a window of each name, as long as the name says, with the changes of its
/// minutes, and the changes of the last seven days.
pub proof fn law_reported_windows(
    out: FundingReport,
    input: FundingInput,
    index_now: Seq<Sample>,
    ts_bucket: i64,
    w: int,
    i: int,
)
    requires
        are_reported_windows(out.by_window@, input, index_now, ts_bucket, 7),
        windows::as_ints(out.recent_7d@) == windows::places_within(
            history::stamps(input.changes),
            ts_bucket + MINUTE_US - 7 * DAY_US - 1,
            ts_bucket + MINUTE_US - 1,
            input.changes.len() as int,
        ),
        input.points.len() <= usize::MAX,
        input.marks.len() <= usize::MAX,
        input.changes.len() <= usize::MAX,
        0 <= w < 7,
        0 <= i < input.changes.len(),
    ensures
        ({
            let window = out.by_window@[w];
            let end = ts_bucket + 60_000_000;
            let minutes = clock::named_minutes(window.label@);
            &&& window.minutes == minutes
            &&& window.metrics.changes@.contains(i as usize) <==> end - minutes * 60_000_000
                <= input.changes[i].ts_change < end
            &&& out.recent_7d@.contains(i as usize) <==> end - 604_800_000_000
                <= input.changes[i].ts_change < end
        }),
{
    law_windows_are_named(w);
    let window = out.by_window@[w];
    assert(window.minutes == spec_windows()[w].1);
    assert(spec_windows()[w].1 > 0);
    law_window_metrics(window.metrics, input, index_now, ts_bucket, window.minutes, i);
    let ts = history::stamps(input.changes);
    windows::law_places_within(
        ts,
        ts_bucket + MINUTE_US - 7 * DAY_US - 1,
        ts_bucket + MINUTE_US - 1,
        input.changes.len() as int,
    );
    let found = windows::as_ints(out.recent_7d@);
    assert(ts[i] == input.changes[i].ts_change);
    if out.recent_7d@.contains(i as usize) {
        let p = choose|p: int| 0 <= p < out.recent_7d@.len() && out.recent_7d@[p] == i as usize;
        assert(found[p] == i);
    }
    if found.contains(i) {
        let p = choose|p: int| 0 <= p < found.len() && found[p] == i;
        assert(out.recent_7d@[p] == i as usize);
    }
}

} // verus!
