//! Bursts of volume, and the price that most of a minute's volume traded at.

use crate::avwap;
use crate::clock;
use crate::clock::MINUTE_US;
use crate::history;
use crate::history::{copied, lower_bound, lower_bound_queue, plan_sync, Stamped, SyncPlan};
#[allow(unused_imports)]
use crate::order;
use crate::order::Key;
use crate::text::same_text;
use std::collections::VecDeque;
use vstd::prelude::*;

verus! {

/// The order key of two, from which on a burst is notable.
pub const KEY_TWO: i64 = 0x4000_0000_0000_0000;

/// The order key of three, from which on a burst is strong.
pub const KEY_THREE: i64 = 0x4008_0000_0000_0000;

/// The minutes of a window, by its name.
pub open spec fn minutes_of(code: Seq<char>) -> Option<i64> {
    if code == "15m"@ {
        Some(15)
    } else if code == "1h"@ {
        Some(60)
    } else if code == "4h"@ {
        Some(240)
    } else if code == "1d"@ {
        Some(1440)
    } else {
        None
    }
}

/// The minutes of a window, by its name.
pub fn window_to_minutes(code: &str) -> (out: Option<i64>)
    ensures
        out == minutes_of(code@),
{
    if same_text(code, "15m") {
        Some(15)
    } else if same_text(code, "1h") {
        Some(60)
    } else if same_text(code, "4h") {
        Some(240)
    } else if same_text(code, "1d") {
        Some(1440)
    } else {
        None
    }
}

/// The volume at one price.
#[derive(Clone, Copy, Debug, PartialEq, Eq)]
pub struct ProfileLevel {
    pub tick: i64,
    pub total: Key,
}

/// Whether the level at a place has the most volume of all, and of those with as much
/// the highest price.
pub open spec fn is_poc(levels: Seq<ProfileLevel>, i: int) -> bool {
    &&& 0 <= i < levels.len()
    &&& forall|j: int| 0 <= j < levels.len() ==> (#[trigger] levels[j]).total <= levels[i].total
    &&& forall|j: int| i < j < levels.len() ==> (#[trigger] levels[j]).total < levels[i].total
}

/// The place of the price that most volume traded at, the last of several; none in an
/// empty profile. The levels stand in the order of their prices.
pub fn intrabar_poc_from_profile(levels: &[ProfileLevel]) -> (out: Option<usize>)
    ensures
        match out {
            None => levels@.len() == 0,
            Some(i) => is_poc(levels@, i as int),
        },
{
    let n: usize = levels.len();
    if n == 0 {
        return None;
    }
    let mut best: usize = 0;
    let mut i: usize = 1;
    while i < n
        invariant
            1 <= i <= n,
            n == levels@.len(),
            best < i,
            forall|j: int|
                0 <= j < i ==> (#[trigger] levels@[j]).total <= levels@[best as int].total,
            forall|j: int|
                best < j < i ==> (#[trigger] levels@[j]).total < levels@[best as int].total,
        decreases n - i,
    {
        if levels[i].total >= levels[best].total {
            best = i;
        }
        i += 1;
    }
    Some(best)
}

/// A minute with the volume at the price that most of it traded at. The minute is named
/// by its end.
#[derive(Clone, Copy, Debug, PartialEq, Eq)]
pub struct PulsePoint {
    pub ts: i64,
    pub poc_volume: Key,
}

impl Stamped for PulsePoint {
    open spec fn at(&self) -> i64 {
        self.ts
    }

    fn ts(&self) -> (out: i64) {
        self.ts
    }
}

/// The first point of the window of some minutes up to an instant.
pub open spec fn window_start(points: Seq<PulsePoint>, end_ts: i64, window_minutes: i64) -> int {
    history::first_at_or_after(
        history::stamps(points),
        (end_ts - avwap::at_least_one(window_minutes) * MINUTE_US + MINUTE_US) as i64,
    )
}

/// The points whose volume makes up the rolling volume at `end_idx`: from the first to
/// that point; none where bisection ends behind it.
pub fn rolling_window(points: &[PulsePoint], end_idx: usize, window_minutes: i64) -> (out: Option<
    usize,
>)
    requires
        end_idx < points@.len(),
        clock::is_instant(points@[end_idx as int].ts),
        window_minutes <= clock::WINDOW_LIMIT_MINUTES,
    ensures
        ({
            let start = window_start(points@, points@[end_idx as int].ts, window_minutes);
            match out {
                None => start > end_idx,
                Some(i) => i == start && start <= end_idx,
            }
        }),
{
    let asked: i64 = if window_minutes < 1 {
        1
    } else {
        window_minutes
    };
    let start: usize = lower_bound(points, points[end_idx].ts - asked * MINUTE_US + MINUTE_US);
    if start > end_idx {
        None
    } else {
        Some(start)
    }
}

/// How many earlier rolling volumes one is compared with: as many as the window has
/// minutes, and no fewer than asked for or than five.
pub open spec fn required(window_minutes: i64, min_samples: usize) -> int {
    let least = if min_samples < 5 {
        5
    } else {
        min_samples as int
    };
    if window_minutes > least {
        window_minutes as int
    } else {
        least
    }
}

/// How many earlier rolling volumes one is compared with.
pub fn required_samples(window_minutes: i64, min_samples: usize) -> (out: u64)
    requires
        0 <= window_minutes,
    ensures
        out == required(window_minutes, min_samples),
{
    let least: u64 = if min_samples < 5 {
        5
    } else {
        min_samples as u64
    };
    let minutes: u64 = window_minutes as u64;
    if minutes > least {
        minutes
    } else {
        least
    }
}

/// The points that the rolling volume at `end_idx` is compared with: from the first, and
/// before that point; none where there are not enough.
pub fn volume_spike_lookback(end_idx: usize, window_minutes: i64, min_samples: usize) -> (out:
    Option<(usize, usize)>)
    requires
        0 <= window_minutes,
    ensures
        match out {
            None => end_idx < required(window_minutes, min_samples),
            Some((a, b)) => a == end_idx - required(window_minutes, min_samples) && b == end_idx,
        },
{
    let n: u64 = required_samples(window_minutes, min_samples);
    if (end_idx as u64) < n {
        None
    } else {
        Some((end_idx - n as usize, end_idx))
    }
}

/// How strong a burst is: notable and strong.
pub fn spike_flags(z: Key) -> (out: (bool, bool))
    ensures
        out.0 == (z >= KEY_TWO),
        out.1 == (z >= KEY_THREE),
{
    (z >= KEY_TWO, z >= KEY_THREE)
}

/// Whether the point at a place has the most volume of those from `lo` on and before
/// `hi`, and is the last with as much.
pub open spec fn is_last_max(points: Seq<PulsePoint>, lo: int, hi: int, i: int) -> bool {
    &&& lo <= i < hi
    &&& forall|j: int|
        lo <= j < hi ==> (#[trigger] points[j]).poc_volume <= points[i].poc_volume
    &&& forall|j: int| i < j < hi ==> (#[trigger] points[j]).poc_volume < points[i].poc_volume
}

/// The place of the point with the most volume in the window of some minutes up to the
/// point at `end_idx`, the last of several; none where bisection ends behind that point.
pub fn intrabar_poc_max_in_window(points: &[PulsePoint], end_idx: usize, window_minutes: i64) -> (out:
    Option<usize>)
    requires
        end_idx < points@.len(),
        clock::is_instant(points@[end_idx as int].ts),
        window_minutes <= clock::WINDOW_LIMIT_MINUTES,
    ensures
        ({
            let start = window_start(points@, points@[end_idx as int].ts, window_minutes);
            match out {
                None => start > end_idx,
                Some(i) => is_last_max(points@, start, end_idx + 1, i as int),
            }
        }),
{
    let start: usize = match rolling_window(points, end_idx, window_minutes) {
        Some(start) => start,
        None => {
            return None;
        },
    };
    proof {
        history::lemma_bisect(
            history::stamps(points@),
            (points@[end_idx as int].ts - avwap::at_least_one(window_minutes) * MINUTE_US
                + MINUTE_US) as i64,
            0,
            points@.len() as int,
        );
    }
    let mut best: usize = start;
    let mut i: usize = start;
    while i < end_idx
        invariant
            start <= i <= end_idx,
            end_idx < points@.len(),
            is_last_max(points@, start as int, i + 1, best as int),
        decreases end_idx - i,
    {
        i += 1;
        if points[i].poc_volume >= points[best].poc_volume {
            best = i;
        }
    }
    Some(best)
}

/// The high volume indicator.
pub struct I22HighVolumePulse;

impl I22HighVolumePulse {
    /// The code of the indicator.
    pub fn code(&self) -> (out: &'static str)
        ensures
            out@ == "high_volume_pulse"@,
    {
        "high_volume_pulse"
    }

    /// For each summary window that is known the place of its point with the most volume,
    /// by the place of the window among those asked for.
    pub fn evaluate(&self, points: &[PulsePoint], summary_codes: &[String]) -> (out: Vec<
        (usize, i64, Option<usize>),
    >)
        requires
            points@.len() > 0 ==> clock::is_instant(points@.last().ts),
        ensures
            points@.len() == 0 ==> out@.len() == 0,
            points@.len() > 0 ==> are_summaries(
                out@,
                points@,
                summary_codes@,
                summary_codes@.len() as int,
            ),
    {
        let mut out: Vec<(usize, i64, Option<usize>)> = Vec::new();
        let n: usize = points.len();
        if n == 0 {
            return out;
        }
        let mut w: usize = 0;
        while w < summary_codes.len()
            invariant
                w <= summary_codes@.len(),
                n == points@.len(),
                n > 0,
                clock::is_instant(points@.last().ts),
                are_summaries(out@, points@, summary_codes@, w as int),
            decreases summary_codes@.len() - w,
        {
            let ghost before = out@;
            if let Some(minutes) = window_to_minutes(&summary_codes[w]) {
                let found: Option<usize> = intrabar_poc_max_in_window(points, n - 1, minutes);
                out.push((w, minutes, found));
                proof {
                    assert(out@.drop_last() =~= before);
                }
            }
            w += 1;
        }
        out
    }
}

/// Whether the summaries are those of the known ones of the first `hi` windows.
pub open spec fn are_summaries(
    out: Seq<(usize, i64, Option<usize>)>,
    points: Seq<PulsePoint>,
    codes: Seq<String>,
    hi: int,
) -> bool
    decreases hi,
{
    if hi <= 0 {
        out.len() == 0
    } else {
        match minutes_of(codes[hi - 1]@) {
            None => are_summaries(out, points, codes, hi - 1),
            Some(minutes) => {
                let start = window_start(points, points.last().ts, minutes);
                &&& out.len() > 0
                &&& are_summaries(out.drop_last(), points, codes, hi - 1)
                &&& out.last().0 == hi - 1
                &&& out.last().1 == minutes
                &&& match out.last().2 {
                    None => start > points.len() - 1,
                    Some(i) => is_last_max(points, start, points.len() as int, i as int),
                }
            },
        }
    }
}

/// The points from `lo` on and before `hi` that have more volume than every later one,
/// in order.
pub open spec fn maxima(points: Seq<PulsePoint>, lo: int, hi: int) -> Seq<PulsePoint>
    decreases hi - lo,
{
    if lo >= hi {
        Seq::empty()
    } else {
        let rest = maxima(points, lo + 1, hi);
        if rest.len() == 0 || points[lo].poc_volume > rest[0].poc_volume {
            seq![points[lo]] + rest
        } else {
            rest
        }
    }
}

/// A queue without the points at its end that have no more volume than `volume`.
pub open spec fn trimmed(queue: Seq<PulsePoint>, volume: Key) -> Seq<PulsePoint>
    decreases queue.len(),
{
    if queue.len() > 0 && queue.last().poc_volume <= volume {
        trimmed(queue.drop_last(), volume)
    } else {
        queue
    }
}

/// Whether a point is before an instant.
pub open spec fn is_before(limit: int) -> spec_fn(PulsePoint) -> bool {
    |p: PulsePoint| p.ts < limit
}

/// A queue of the largest volumes after one more point: those at its end that have no
/// more volume give way to it, and those before the window of some minutes fall out.
pub open spec fn queued(queue: Seq<PulsePoint>, p: PulsePoint, minutes: int) -> Seq<PulsePoint> {
    history::drop_while(
        trimmed(queue, p.poc_volume).push(p),
        is_before(p.ts - minutes * MINUTE_US + MINUTE_US),
    )
}

proof fn lemma_maxima_first(points: Seq<PulsePoint>, lo: int, hi: int)
    requires
        0 <= lo < hi <= points.len(),
    ensures
        maxima(points, lo, hi).len() > 0,
        exists|i: int|
            #[trigger] is_last_max(points, lo, hi, i) && points[i] == maxima(points, lo, hi)[0],
    decreases hi - lo,
{
    if lo + 1 == hi {
        assert(is_last_max(points, lo, hi, lo));
        assert(maxima(points, lo + 1, hi) =~= Seq::<PulsePoint>::empty());
    } else {
        lemma_maxima_first(points, lo + 1, hi);
        let rest = maxima(points, lo + 1, hi);
        let i = choose|i: int|
            #[trigger] is_last_max(points, lo + 1, hi, i) && points[i] == rest[0];
        if points[lo].poc_volume > rest[0].poc_volume {
            assert(is_last_max(points, lo, hi, lo));
        } else {
            assert(is_last_max(points, lo, hi, i));
        }
    }
}

proof fn lemma_trim(queue: Seq<PulsePoint>, head: PulsePoint, volume: Key)
    ensures
        trimmed(seq![head] + queue, volume) == if trimmed(queue, volume).len() > 0
            || head.poc_volume > volume {
            seq![head] + trimmed(queue, volume)
        } else {
            Seq::empty()
        },
    decreases queue.len(),
{
    let all = seq![head] + queue;
    if queue.len() == 0 {
        assert(all.last() == head);
        assert(all.drop_last() =~= Seq::<PulsePoint>::empty());
        assert(all =~= seq![head] + trimmed(queue, volume));
        assert(trimmed(Seq::<PulsePoint>::empty(), volume) =~= Seq::<PulsePoint>::empty());
    } else {
        assert(all.last() == queue.last());
        if queue.last().poc_volume <= volume {
            assert(all.drop_last() =~= seq![head] + queue.drop_last());
            lemma_trim(queue.drop_last(), head, volume);
        }
    }
}

proof fn lemma_trim_keeps_first(queue: Seq<PulsePoint>, volume: Key)
    ensures
        trimmed(queue, volume).len() <= queue.len(),
        trimmed(queue, volume).len() > 0 ==> trimmed(queue, volume)[0] == queue[0]
            && trimmed(queue, volume).last().poc_volume > volume,
    decreases queue.len(),
{
    if queue.len() > 0 && queue.last().poc_volume <= volume {
        lemma_trim_keeps_first(queue.drop_last(), volume);
    }
}

proof fn lemma_maxima_fall(points: Seq<PulsePoint>, lo: int, hi: int)
    requires
        0 <= lo <= hi <= points.len(),
    ensures
        forall|a: int, b: int|
            0 <= a < b < maxima(points, lo, hi).len() ==> (#[trigger] maxima(
                points,
                lo,
                hi,
            )[a]).poc_volume > (#[trigger] maxima(points, lo, hi)[b]).poc_volume,
    decreases hi - lo,
{
    if lo < hi {
        lemma_maxima_fall(points, lo + 1, hi);
        let rest = maxima(points, lo + 1, hi);
        let all = maxima(points, lo, hi);
        assert forall|a: int, b: int| 0 <= a < b < all.len() implies (
        #[trigger] all[a]).poc_volume > (#[trigger] all[b]).poc_volume by {
            if all.len() == rest.len() + 1 {
                assert(all[b] == rest[b - 1]);
                if a > 0 {
                    assert(all[a] == rest[a - 1]);
                } else if b > 1 {
                    assert(rest[0].poc_volume > rest[b - 1].poc_volume);
                }
            }
        }
    }
}

/// One more point: those with no more volume at the end give way.
proof fn lemma_maxima_push(points: Seq<PulsePoint>, lo: int, hi: int)
    requires
        0 <= lo <= hi < points.len(),
    ensures
        maxima(points, lo, hi + 1) == trimmed(
            maxima(points, lo, hi),
            points[hi].poc_volume,
        ).push(points[hi]),
    decreases hi - lo,
{
    let p = points[hi];
    if lo == hi {
        assert(maxima(points, hi + 1, hi + 1) =~= Seq::<PulsePoint>::empty());
        assert(maxima(points, lo, hi) =~= Seq::<PulsePoint>::empty());
        assert(maxima(points, lo, hi + 1) =~= seq![p]);
        assert(trimmed(Seq::<PulsePoint>::empty(), p.poc_volume).push(p) =~= seq![p]);
    } else {
        lemma_maxima_push(points, lo + 1, hi);
        let rest = maxima(points, lo + 1, hi);
        let rest2 = maxima(points, lo + 1, hi + 1);
        let head = points[lo];
        let cut = trimmed(rest, p.poc_volume);
        lemma_trim_keeps_first(rest, p.poc_volume);
        lemma_maxima_fall(points, lo + 1, hi);
        assert(rest2 == cut.push(p));
        if rest.len() == 0 || head.poc_volume > rest[0].poc_volume {
            lemma_trim(rest, head, p.poc_volume);
            let whole = trimmed(seq![head] + rest, p.poc_volume);
            if cut.len() > 0 {
                assert(rest2[0] == rest[0]);
                assert(seq![head] + cut.push(p) =~= (seq![head] + cut).push(p));
            } else {
                assert(rest2[0] == p);
                if head.poc_volume > p.poc_volume {
                    assert(seq![head] + cut.push(p) =~= (seq![head] + cut).push(p));
                } else {
                    assert(whole =~= Seq::<PulsePoint>::empty());
                    assert(rest2 =~= whole.push(p));
                }
            }
        } else {
            if cut.len() > 0 {
                assert(rest2[0] == rest[0]);
            } else {
                assert(rest2[0] == p);
                assert(rest[0].poc_volume <= p.poc_volume) by {
                    lemma_trim_all(rest, p.poc_volume);
                }
            }
        }
    }
}

proof fn lemma_trim_all(queue: Seq<PulsePoint>, volume: Key)
    requires
        trimmed(queue, volume).len() == 0,
    ensures
        forall|i: int| 0 <= i < queue.len() ==> (#[trigger] queue[i]).poc_volume <= volume,
    decreases queue.len(),
{
    if queue.len() > 0 {
        lemma_trim_all(queue.drop_last(), volume);
        assert forall|i: int| 0 <= i < queue.len() implies (#[trigger] queue[i]).poc_volume
            <= volume by {
            if i < queue.len() - 1 {
                assert(queue.drop_last()[i] == queue[i]);
            }
        }
    }
}

/// What falls out at the front of the largest volumes of a run is what lies before the
/// later start.
proof fn lemma_maxima_drop(points: Seq<PulsePoint>, lo: int, mid: int, hi: int, limit: int)
    requires
        0 <= lo <= mid <= hi <= points.len(),
        forall|i: int| lo <= i < mid ==> (#[trigger] points[i]).ts < limit,
        forall|i: int| mid <= i < hi ==> (#[trigger] points[i]).ts >= limit,
    ensures
        history::drop_while(maxima(points, lo, hi), is_before(limit)) == maxima(points, mid, hi),
    decreases hi - lo,
{
    let gone = is_before(limit);
    if lo == mid {
        lemma_maxima_members(points, lo, hi, limit);
        history::lemma_drop_while_none(maxima(points, lo, hi), gone);
    } else {
        lemma_maxima_drop(points, lo + 1, mid, hi, limit);
        let rest = maxima(points, lo + 1, hi);
        let all = maxima(points, lo, hi);
        if all.len() == rest.len() + 1 {
            assert(all[0] == points[lo]);
            assert(gone(all[0]));
            assert(all.drop_first() =~= rest);
        } else {
            assert(all == rest);
        }
    }
}

proof fn lemma_maxima_members(points: Seq<PulsePoint>, lo: int, hi: int, limit: int)
    requires
        0 <= lo <= hi <= points.len(),
        forall|i: int| lo <= i < hi ==> (#[trigger] points[i]).ts >= limit,
    ensures
        maxima(points, lo, hi).len() > 0 ==> maxima(points, lo, hi)[0].ts >= limit,
    decreases hi - lo,
{
    if lo < hi {
        lemma_maxima_members(points, lo + 1, hi, limit);
    }
}

/// The first `hi` points queued one by one.
pub open spec fn queue_of(points: Seq<PulsePoint>, minutes: int, hi: int) -> Seq<PulsePoint>
    decreases hi,
{
    if hi <= 0 {
        Seq::empty()
    } else {
        queued(queue_of(points, minutes, hi - 1), points[hi - 1], minutes)
    }
}

/// Over points in order the queue holds the largest volumes of the window, and its first
/// is the point with the most volume there, the last of several.
pub proof fn law_queue_front_is_window_max(points: Seq<PulsePoint>, minutes: i64, hi: int)
    requires
        0 < hi <= points.len(),
        history::in_order(history::stamps(points)),
        1 <= minutes <= clock::WINDOW_LIMIT_MINUTES,
        forall|i: int| 0 <= i < points.len() ==> clock::is_instant((#[trigger] points[i]).ts),
    ensures
        ({
            let start = window_start(points.take(hi), points[hi - 1].ts, minutes);
            let queue = queue_of(points, minutes as int, hi);
            &&& queue == maxima(points, start, hi)
            &&& queue.len() > 0
            &&& exists|i: int|
                #[trigger] is_last_max(points, start, hi, i) && points[i] == queue[0]
        }),
    decreases hi,
{
    let p = points[hi - 1];
    let st = history::stamps(points.take(hi));
    let full = history::stamps(points);
    let target = (p.ts - minutes * MINUTE_US + MINUTE_US) as i64;
    assert(clock::is_instant(points[hi - 1].ts));
    assert(forall|i: int| 0 <= i < hi ==> #[trigger] st[i] == full[i]);
    assert(history::in_order(st)) by {
        assert forall|a: int, b: int| 0 <= a <= b < st.len() implies st[a] <= st[b] by {
            assert(full[a] <= full[b]);
        }
    }
    history::lemma_first_at_or_after(st, target);
    let start = history::first_at_or_after(st, target);
    assert(start <= hi - 1) by {
        assert(MINUTE_US <= minutes * MINUTE_US) by (nonlinear_arith)
            requires
                minutes >= 1,
        ;
        assert(st[hi - 1] >= target);
    }
    let old_start = if hi == 1 {
        0
    } else {
        window_start(points.take(hi - 1), points[hi - 2].ts, minutes)
    };
    let old_queue = queue_of(points, minutes as int, hi - 1);
    if hi == 1 {
        assert(maxima(points, 0, 0) =~= Seq::<PulsePoint>::empty());
    } else {
        law_queue_front_is_window_max(points, minutes, hi - 1);
        let st0 = history::stamps(points.take(hi - 1));
        let target0 = (points[hi - 2].ts - minutes * MINUTE_US + MINUTE_US) as i64;
        assert(clock::is_instant(points[hi - 2].ts));
        assert(full[hi - 2] <= full[hi - 1]);
        assert(history::in_order(st0)) by {
            assert forall|a: int, b: int| 0 <= a <= b < st0.len() implies st0[a] <= st0[b] by {
                assert(full[a] <= full[b]);
            }
        }
        history::lemma_first_at_or_after(st0, target0);
        assert(old_start <= start) by {
            if start < old_start {
                assert(st0[start] < target0);
                assert(st[start] == st0[start]);
                assert(st[start] >= target);
            }
        }
    }
    assert(old_queue == maxima(points, old_start, hi - 1));
    lemma_maxima_push(points, old_start, hi - 1);
    assert forall|i: int| old_start <= i < start implies (#[trigger] points[i]).ts < target by {
        assert(st[i] < target);
    }
    assert forall|i: int| start <= i < hi implies (#[trigger] points[i]).ts >= target by {
        assert(st[i] >= target);
    }
    lemma_maxima_drop(points, old_start, start, hi, target as int);
    lemma_maxima_first(points, start, hi);
    assert(target == p.ts - minutes * MINUTE_US + MINUTE_US);
    assert(start == window_start(points.take(hi), p.ts, minutes));
    assert(queue_of(points, minutes as int, hi) == queued(old_queue, p, minutes as int));
    assert(queue_of(points, minutes as int, hi) == maxima(points, start, hi));
}

/// A minute that comes in, with the volume at the price that most of it traded at.
#[derive(Clone, Copy, Debug, PartialEq, Eq)]
pub struct PulseMinute {
    pub ts_bucket: i64,
    pub poc_volume: Key,
}

impl Stamped for PulseMinute {
    open spec fn at(&self) -> i64 {
        self.ts_bucket
    }

    fn ts(&self) -> (out: i64) {
        self.ts_bucket
    }
}

/// The point of a minute.
pub open spec fn point_of(row: PulseMinute) -> PulsePoint {
    PulsePoint { ts: (row.ts_bucket + MINUTE_US) as i64, poc_volume: row.poc_volume }
}

/// The points of a history.
pub open spec fn all_points(rows: Seq<PulseMinute>) -> Seq<PulsePoint> {
    Seq::new(rows.len(), |i: int| point_of(rows[i]))
}

/// Whether a point lies no later than a limit.
pub open spec fn point_upto(limit: int) -> spec_fn(PulsePoint) -> bool {
    |p: PulsePoint| p.ts <= limit
}

/// What is held while minutes come in.
pub struct PulseModel {
    /// The points that are not too far back.
    pub points: Seq<PulsePoint>,
    /// For each window of rolling volumes how many earlier ones are held.
    pub seen: Seq<int>,
    /// For each summary window the largest volumes.
    pub queues: Seq<Seq<PulsePoint>>,
    /// The last minute.
    pub last_ts: Option<i64>,
}

/// What a state was made with.
pub struct PulseSettings {
    /// The minutes of the windows of rolling volumes.
    pub z_windows: Seq<i64>,
    /// The minutes of the summary windows.
    pub summary_windows: Seq<i64>,
    pub min_samples: usize,
    /// How many minutes are remembered.
    pub limit: int,
}

/// Nothing held.
pub open spec fn nothing_held(s: PulseSettings) -> PulseModel {
    PulseModel {
        points: Seq::empty(),
        seen: Seq::new(s.z_windows.len(), |w: int| 0int),
        queues: Seq::new(s.summary_windows.len(), |w: int| Seq::<PulsePoint>::empty()),
        last_ts: None,
    }
}

/// What is held after one more minute.
pub open spec fn taken(m: PulseModel, row: PulseMinute, s: PulseSettings) -> PulseModel {
    let p = point_of(row);
    PulseModel {
        points: history::drop_while(
            m.points.push(p),
            point_upto(p.ts - s.limit * MINUTE_US),
        ),
        seen: Seq::new(
            s.z_windows.len(),
            |w: int|
                if m.seen[w] < required(s.z_windows[w], s.min_samples) {
                    m.seen[w] + 1
                } else {
                    m.seen[w]
                },
        ),
        queues: Seq::new(
            s.summary_windows.len(),
            |w: int| queued(m.queues[w], p, s.summary_windows[w] as int),
        ),
        last_ts: Some(row.ts_bucket),
    }
}

/// What is held after the first `n` rows came in one by one.
pub open spec fn followed(
    m: PulseModel,
    rows: Seq<PulseMinute>,
    s: PulseSettings,
    n: int,
) -> PulseModel
    decreases n,
{
    if n <= 0 {
        m
    } else {
        taken(followed(m, rows, s, n - 1), rows[n - 1], s)
    }
}

/// What is held after a whole history came in.
pub open spec fn rebuilt(rows: Seq<PulseMinute>, s: PulseSettings) -> PulseModel {
    followed(nothing_held(s), rows, s, rows.len() as int)
}

/// What is held after a state was brought up to the end of a history.
pub open spec fn synced(m: PulseModel, rows: Seq<PulseMinute>, s: PulseSettings) -> PulseModel {
    match history::sync_plan(history::stamps(rows), m.last_ts) {
        SyncPlan::Rebuild => rebuilt(rows, s),
        SyncPlan::Nothing => m,
        SyncPlan::From(k) => followed(
            m,
            rows.subrange(k as int, rows.len() as int),
            s,
            rows.len() - k,
        ),
    }
}

/// What one minute changed, and what holds at it.
#[derive(Clone, Debug, PartialEq, Eq)]
pub struct PulseStep {
    /// How many of the oldest points fell out.
    pub dropped: usize,
    /// For each window of rolling volumes the first held point whose volume counts; none
    /// where no volume does.
    pub rolling_from: Vec<Option<usize>>,
    /// For each window whether enough earlier rolling volumes were held to compare with.
    pub ready: Vec<bool>,
    /// For each window whether the oldest earlier rolling volume falls out.
    pub replaced: Vec<bool>,
    /// For each summary window the point with the most volume.
    pub summary: Vec<Option<PulsePoint>>,
}

/// The first held point whose volume counts for a rolling window.
pub open spec fn rolling_start(points: Seq<PulsePoint>, minutes: i64) -> Option<int> {
    if points.len() == 0 {
        None
    } else {
        let start = window_start(points, points.last().ts, minutes);
        if start > points.len() - 1 {
            None
        } else {
            Some(start)
        }
    }
}

/// Whether a step says what changed between two models.
pub open spec fn is_step(
    step: PulseStep,
    before: PulseModel,
    after: PulseModel,
    s: PulseSettings,
) -> bool {
    &&& step.dropped == before.points.len() + 1 - after.points.len()
    &&& step.rolling_from@.len() == s.z_windows.len()
    &&& step.ready@.len() == s.z_windows.len()
    &&& step.replaced@.len() == s.z_windows.len()
    &&& step.summary@.len() == s.summary_windows.len()
    &&& forall|w: int|
        0 <= w < s.z_windows.len() ==> match #[trigger] step.rolling_from@[w] {
            None => rolling_start(after.points, s.z_windows[w]) is None,
            Some(i) => rolling_start(after.points, s.z_windows[w]) == Some(i as int),
        }
    &&& forall|w: int|
        0 <= w < s.z_windows.len() ==> #[trigger] step.ready@[w] == (before.seen[w] >= required(
            s.z_windows[w],
            s.min_samples,
        ))
    &&& forall|w: int|
        0 <= w < s.z_windows.len() ==> #[trigger] step.replaced@[w] == (before.seen[w]
            >= required(s.z_windows[w], s.min_samples))
    &&& forall|w: int|
        0 <= w < s.summary_windows.len() ==> #[trigger] step.summary@[w] == if after.queues[w].len()
            == 0 {
            None::<PulsePoint>
        } else {
            Some(after.queues[w][0])
        }
}

/// The running state of the bursts of volume.
#[derive(Debug)]
pub struct HighVolumePulseState {
    z_windows: Vec<i64>,
    summary_windows: Vec<i64>,
    min_samples: usize,
    limit: i64,
    points: VecDeque<PulsePoint>,
    seen: Vec<u64>,
    queues: Vec<VecDeque<PulsePoint>>,
    last_ts: Option<i64>,
}

impl View for HighVolumePulseState {
    type V = PulseModel;

    closed spec fn view(&self) -> PulseModel {
        PulseModel {
            points: self.points@,
            seen: Seq::new(self.seen@.len(), |w: int| self.seen@[w] as int),
            queues: Seq::new(self.queues@.len(), |w: int| self.queues@[w]@),
            last_ts: self.last_ts,
        }
    }
}

/// Puts a point into a queue of the largest volumes.
fn enqueue(queue: &mut VecDeque<PulsePoint>, p: PulsePoint, minutes: i64)
    requires
        clock::is_instant(p.ts),
        -clock::WINDOW_LIMIT_MINUTES <= minutes <= clock::WINDOW_LIMIT_MINUTES,
    ensures
        final(queue)@ == queued(old(queue)@, p, minutes as int),
{
    while queue.len() > 0 && queue[queue.len() - 1].poc_volume <= p.poc_volume
        invariant
            trimmed(queue@, p.poc_volume) == trimmed(old(queue)@, p.poc_volume),
        decreases queue@.len(),
    {
        let ghost before = queue@;
        let _ = queue.pop_back();
        assert(queue@ =~= before.drop_last());
    }
    assert(trimmed(queue@, p.poc_volume) == queue@);
    queue.push_back(p);
    let limit: i64 = p.ts - minutes * MINUTE_US + MINUTE_US;
    let ghost all = queue@;
    let ghost gone = is_before(limit as int);
    while queue.len() > 0 && queue[0].ts < limit
        invariant
            gone == is_before(limit as int),
            history::drop_while(queue@, gone) == history::drop_while(all, gone),
        decreases queue@.len(),
    {
        let ghost before = queue@;
        proof {
            assert(gone(before[0]));
        }
        let _ = queue.pop_front();
        assert(queue@ =~= before.drop_first());
    }
    proof {
        if queue@.len() > 0 {
            assert(!gone(queue@[0]));
        }
        history::lemma_drop_while_none(queue@, gone);
    }
}

impl HighVolumePulseState {
    /// What the state was made with.
    pub closed spec fn settings(&self) -> PulseSettings {
        PulseSettings {
            z_windows: self.z_windows@,
            summary_windows: self.summary_windows@,
            min_samples: self.min_samples,
            limit: self.limit as int,
        }
    }

    /// One count and one queue for each window.
    pub closed spec fn well_formed(&self) -> bool {
        &&& self.seen@.len() == self.z_windows@.len()
        &&& self.queues@.len() == self.summary_windows@.len()
        &&& forall|w: int|
            0 <= w < self.z_windows@.len() ==> 0 <= (#[trigger] self.z_windows@[w])
                <= clock::WINDOW_LIMIT_MINUTES
        &&& forall|w: int|
            0 <= w < self.summary_windows@.len() ==> 0 <= (#[trigger] self.summary_windows@[w])
                <= clock::WINDOW_LIMIT_MINUTES
        &&& 0 <= self.limit <= clock::WINDOW_LIMIT_MINUTES
        &&& forall|w: int|
            0 <= w < self.seen@.len() ==> (#[trigger] self.seen@[w]) <= required(
                self.z_windows@[w],
                self.min_samples,
            )
        &&& forall|i: int|
            0 <= i < self.points@.len() ==> clock::is_instant((#[trigger] self.points@[i]).ts)
        &&& self.last_ts matches Some(last) ==> last <= clock::INSTANT_LIMIT_US
    }

    /// A state that has followed nothing and remembers `limit` minutes.
    pub fn new(
        z_windows: Vec<i64>,
        summary_windows: Vec<i64>,
        min_samples: usize,
        limit: i64,
    ) -> (out: Self)
        requires
            forall|w: int|
                0 <= w < z_windows@.len() ==> 0 <= (#[trigger] z_windows@[w])
                    <= clock::WINDOW_LIMIT_MINUTES,
            forall|w: int|
                0 <= w < summary_windows@.len() ==> 0 <= (#[trigger] summary_windows@[w])
                    <= clock::WINDOW_LIMIT_MINUTES,
            0 <= limit <= clock::WINDOW_LIMIT_MINUTES,
        ensures
            out.well_formed(),
            out.settings() == (PulseSettings {
                z_windows: z_windows@,
                summary_windows: summary_windows@,
                min_samples,
                limit: limit as int,
            }),
            out@ == nothing_held(out.settings()),
    {
        let mut seen: Vec<u64> = Vec::new();
        let mut w: usize = 0;
        while w < z_windows.len()
            invariant
                w <= z_windows@.len(),
                seen@.len() == w,
                forall|i: int| 0 <= i < w ==> (#[trigger] seen@[i]) == 0,
            decreases z_windows@.len() - w,
        {
            seen.push(0);
            w += 1;
        }
        let mut queues: Vec<VecDeque<PulsePoint>> = Vec::new();
        let mut q: usize = 0;
        while q < summary_windows.len()
            invariant
                q <= summary_windows@.len(),
                queues@.len() == q,
                forall|i: int|
                    0 <= i < q ==> (#[trigger] queues@[i])@ == Seq::<PulsePoint>::empty(),
            decreases summary_windows@.len() - q,
        {
            queues.push(VecDeque::new());
            q += 1;
        }
        let out = HighVolumePulseState {
            z_windows,
            summary_windows,
            min_samples,
            limit,
            points: VecDeque::new(),
            seen,
            queues,
            last_ts: None,
        };
        proof {
            assert(out@.seen =~= nothing_held(out.settings()).seen);
            assert(out@.queues =~= nothing_held(out.settings()).queues);
        }
        out
    }

    /// The last minute followed.
    pub fn last_ts(&self) -> (out: Option<i64>)
        ensures
            out == self@.last_ts,
    {
        self.last_ts
    }

    /// Takes a point in and lets those too far back fall out; how many did.
    fn roll_points(&mut self, p: PulsePoint) -> (out: usize)
        requires
            old(self).well_formed(),
            clock::is_instant(p.ts),
        ensures
            final(self).well_formed(),
            final(self).points@ == history::drop_while(
                old(self).points@.push(p),
                point_upto(p.ts - old(self).limit * MINUTE_US),
            ),
            final(self).z_windows@ == old(self).z_windows@,
            final(self).summary_windows@ == old(self).summary_windows@,
            final(self).min_samples == old(self).min_samples,
            final(self).limit == old(self).limit,
            final(self).seen@ == old(self).seen@,
            final(self).queues@ == old(self).queues@,
            final(self).last_ts == old(self).last_ts,
            out == old(self).points@.len() + 1 - final(self).points@.len(),
    {
        let cutoff: i64 = p.ts - self.limit * MINUTE_US;
        self.points.push_back(p);
        let ghost all = self.points@;
        let ghost gone = point_upto(cutoff as int);
        let held: usize = self.points.len();
        proof {
            assert(all.subrange(0, all.len() as int) =~= all);
            assert forall|i: int| 0 <= i < all.len() implies clock::is_instant(
                (#[trigger] all[i]).ts,
            ) by {
                if i < all.len() - 1 {
                    assert(all[i] == old(self).points@[i]);
                }
            }
        }
        while self.points.len() > 0 && self.points[0].ts <= cutoff
            invariant
                gone == point_upto(cutoff as int),
                history::drop_while(self.points@, gone) == history::drop_while(all, gone),
                self.points@.len() <= held,
                held == all.len(),
                forall|i: int|
                    0 <= i < self.points@.len() ==> clock::is_instant(
                        (#[trigger] self.points@[i]).ts,
                    ),
                self.z_windows@ == old(self).z_windows@,
                self.summary_windows@ == old(self).summary_windows@,
                self.min_samples == old(self).min_samples,
                self.limit == old(self).limit,
                self.seen@ == old(self).seen@,
                self.queues@ == old(self).queues@,
                self.last_ts == old(self).last_ts,
            decreases self.points@.len(),
        {
            let ghost before = self.points@;
            proof {
                assert(gone(before[0]));
            }
            let _ = self.points.pop_front();
            assert(self.points@ =~= before.drop_first());
        }
        proof {
            if self.points@.len() > 0 {
                assert(!gone(self.points@[0]));
            }
            history::lemma_drop_while_none(self.points@, gone);
        }
        held - self.points.len()
    }

    /// The first held point whose volume counts for a rolling window.
    fn rolling_volume_start(&self, minutes: i64) -> (out: Option<usize>)
        requires
            self.well_formed(),
            0 <= minutes <= clock::WINDOW_LIMIT_MINUTES,
        ensures
            match out {
                None => rolling_start(self@.points, minutes) is None,
                Some(i) => rolling_start(self@.points, minutes) == Some(i as int),
            },
    {
        let n: usize = self.points.len();
        if n == 0 {
            return None;
        }
        let asked: i64 = if minutes < 1 {
            1
        } else {
            minutes
        };
        assert(clock::is_instant(self.points@[n - 1].ts));
        let start: usize = lower_bound_queue(
            &self.points,
            self.points[n - 1].ts - asked * MINUTE_US + MINUTE_US,
        );
        if start > n - 1 {
            None
        } else {
            Some(start)
        }
    }

    /// Takes one minute in.
    pub fn append_minute(&mut self, row: &PulseMinute) -> (out: PulseStep)
        requires
            old(self).well_formed(),
            -clock::INSTANT_LIMIT_US <= row.ts_bucket <= clock::INSTANT_LIMIT_US - MINUTE_US,
        ensures
            final(self).well_formed(),
            final(self).settings() == old(self).settings(),
            final(self)@ == taken(old(self)@, *row, old(self).settings()),
            is_step(out, old(self)@, final(self)@, old(self).settings()),
    {
        let p: PulsePoint = PulsePoint {
            ts: row.ts_bucket + MINUTE_US,
            poc_volume: row.poc_volume,
        };
        let ghost s = self.settings();
        let ghost seen_before = self.seen@;
        let ghost queues_before = self.queues@;
        let dropped: usize = self.roll_points(p);
        let ghost points_now = self.points@;
        let zs: usize = self.z_windows.len();
        let mut rolling_from: Vec<Option<usize>> = Vec::new();
        let mut ready: Vec<bool> = Vec::new();
        let mut replaced: Vec<bool> = Vec::new();
        let mut w: usize = 0;
        while w < zs
            invariant
                w <= zs,
                self.well_formed(),
                self.settings() == s,
                self.points@ == points_now,
                self.queues@ == queues_before,
                zs == s.z_windows.len(),
                zs == self.seen@.len(),
                seen_before.len() == zs,
                rolling_from@.len() == w,
                ready@.len() == w,
                replaced@.len() == w,
                forall|i: int| w <= i < zs ==> #[trigger] self.seen@[i] == seen_before[i],
                forall|i: int|
                    0 <= i < w ==> #[trigger] self.seen@[i] == if seen_before[i] < required(
                        s.z_windows[i],
                        s.min_samples,
                    ) {
                        seen_before[i] + 1
                    } else {
                        seen_before[i] as int
                    },
                forall|i: int|
                    0 <= i < w ==> match #[trigger] rolling_from@[i] {
                        None => rolling_start(points_now, s.z_windows[i]) is None,
                        Some(x) => rolling_start(points_now, s.z_windows[i]) == Some(x as int),
                    },
                forall|i: int|
                    0 <= i < w ==> #[trigger] ready@[i] == (seen_before[i] >= required(
                        s.z_windows[i],
                        s.min_samples,
                    )),
                forall|i: int|
                    0 <= i < w ==> #[trigger] replaced@[i] == (seen_before[i] >= required(
                        s.z_windows[i],
                        s.min_samples,
                    )),
            decreases zs - w,
        {
            let minutes: i64 = self.z_windows[w];
            assert(0 <= self.z_windows@[w as int] <= clock::WINDOW_LIMIT_MINUTES);
            rolling_from.push(self.rolling_volume_start(minutes));
            let needed: u64 = required_samples(minutes, self.min_samples);
            let enough: bool = self.seen[w] >= needed;
            ready.push(enough);
            replaced.push(enough);
            let ghost now = self.seen@;
            if !enough {
                let more: u64 = self.seen[w] + 1;
                self.seen.set(w, more);
            }
            proof {
                assert(forall|i: int| 0 <= i < zs && i != w ==> #[trigger] self.seen@[i] == now[i]);
            }
            w += 1;
        }
        let ghost seen_now = self.seen@;
        let qs: usize = self.summary_windows.len();
        let mut summary: Vec<Option<PulsePoint>> = Vec::new();
        let mut q: usize = 0;
        while q < qs
            invariant
                q <= qs,
                self.well_formed(),
                self.settings() == s,
                self.points@ == points_now,
                self.seen@ == seen_now,
                qs == s.summary_windows.len(),
                qs == self.queues@.len(),
                queues_before.len() == qs,
                clock::is_instant(p.ts),
                summary@.len() == q,
                forall|i: int| q <= i < qs ==> #[trigger] self.queues@[i] == queues_before[i],
                forall|i: int|
                    0 <= i < q ==> (#[trigger] self.queues@[i])@ == queued(
                        queues_before[i]@,
                        p,
                        s.summary_windows[i] as int,
                    ),
                forall|i: int|
                    0 <= i < q ==> #[trigger] summary@[i] == if self.queues@[i]@.len() == 0 {
                        None::<PulsePoint>
                    } else {
                        Some(self.queues@[i]@[0])
                    },
            decreases qs - q,
        {
            let minutes: i64 = self.summary_windows[q];
            assert(0 <= self.summary_windows@[q as int] <= clock::WINDOW_LIMIT_MINUTES);
            let ghost now = self.queues@;
            enqueue(&mut self.queues[q], p, minutes);
            proof {
                assert(forall|i: int| 0 <= i < qs && i != q ==> #[trigger] self.queues@[i]
                    == now[i]);
            }
            if self.queues[q].len() == 0 {
                summary.push(None);
            } else {
                let front: PulsePoint = self.queues[q][0];
                summary.push(Some(front));
            }
            q += 1;
        }
        self.last_ts = Some(row.ts_bucket);
        proof {
            let m = taken(old(self)@, *row, s);
            assert(self@.seen =~= m.seen);
            assert(self@.queues =~= m.queues);
            assert(self@.points == m.points);
        }
        PulseStep { dropped, rolling_from, ready, replaced, summary }
    }

    /// Takes rows in, one by one.
    fn append_all(&mut self, rows: &[PulseMinute]) -> (out: Vec<PulseStep>)
        requires
            old(self).well_formed(),
            forall|i: int|
                0 <= i < rows@.len() ==> -clock::INSTANT_LIMIT_US <= (
                #[trigger] rows@[i]).ts_bucket <= clock::INSTANT_LIMIT_US - MINUTE_US,
        ensures
            final(self).well_formed(),
            final(self).settings() == old(self).settings(),
            final(self)@ == followed(
                old(self)@,
                rows@,
                old(self).settings(),
                rows@.len() as int,
            ),
            are_steps(out@, old(self)@, rows@, old(self).settings(), rows@.len() as int),
    {
        let mut out: Vec<PulseStep> = Vec::new();
        let ghost start = self@;
        let ghost s = self.settings();
        let n: usize = rows.len();
        let mut i: usize = 0;
        while i < n
            invariant
                i <= n,
                n == rows@.len(),
                self.well_formed(),
                self.settings() == s,
                forall|j: int|
                    0 <= j < rows@.len() ==> -clock::INSTANT_LIMIT_US <= (
                    #[trigger] rows@[j]).ts_bucket <= clock::INSTANT_LIMIT_US - MINUTE_US,
                self@ == followed(start, rows@, s, i as int),
                are_steps(out@, start, rows@, s, i as int),
            decreases n - i,
        {
            let step: PulseStep = self.append_minute(&rows[i]);
            out.push(step);
            i += 1;
        }
        out
    }

    /// Follows a whole history from the start.
    pub fn rebuild(&mut self, rows: &[PulseMinute]) -> (out: Vec<PulseStep>)
        requires
            old(self).well_formed(),
            forall|i: int|
                0 <= i < rows@.len() ==> -clock::INSTANT_LIMIT_US <= (
                #[trigger] rows@[i]).ts_bucket <= clock::INSTANT_LIMIT_US - MINUTE_US,
        ensures
            final(self).well_formed(),
            final(self).settings() == old(self).settings(),
            final(self)@ == rebuilt(rows@, old(self).settings()),
            are_steps(
                out@,
                nothing_held(old(self).settings()),
                rows@,
                old(self).settings(),
                rows@.len() as int,
            ),
    {
        let z_windows: Vec<i64> = copied(&self.z_windows);
        let summary_windows: Vec<i64> = copied(&self.summary_windows);
        *self =
        HighVolumePulseState::new(z_windows, summary_windows, self.min_samples, self.limit);
        self.append_all(rows)
    }

    /// Brings the state up to the end of a history.
    pub fn sync(&mut self, rows: &[PulseMinute]) -> (out: PulseSync)
        requires
            old(self).well_formed(),
            forall|i: int|
                0 <= i < rows@.len() ==> -clock::INSTANT_LIMIT_US <= (
                #[trigger] rows@[i]).ts_bucket <= clock::INSTANT_LIMIT_US - MINUTE_US,
        ensures
            final(self).well_formed(),
            final(self).settings() == old(self).settings(),
            final(self)@ == synced(old(self)@, rows@, old(self).settings()),
            tells_sync(out, old(self)@, rows@, old(self).settings()),
    {
        match plan_sync(rows, self.last_ts) {
            SyncPlan::Rebuild => PulseSync::Rebuilt(self.rebuild(rows)),
            SyncPlan::Nothing => PulseSync::Nothing,
            SyncPlan::From(from) => {
                let tail = vstd::slice::slice_subrange(rows, from, rows.len());
                proof {
                    assert forall|i: int|
                        0 <= i < tail@.len() implies -clock::INSTANT_LIMIT_US <= (
                    #[trigger] tail@[i]).ts_bucket <= clock::INSTANT_LIMIT_US - MINUTE_US by {
                        assert(tail@[i] == rows@[from + i]);
                    }
                }
                PulseSync::Continued { from, steps: self.append_all(tail) }
            },
        }
    }
}

/// Whether steps say what changed with each of the first `n` rows.
pub open spec fn are_steps(
    steps: Seq<PulseStep>,
    m: PulseModel,
    rows: Seq<PulseMinute>,
    s: PulseSettings,
    n: int,
) -> bool {
    &&& steps.len() == n
    &&& forall|i: int|
        0 <= i < n ==> is_step(
            #[trigger] steps[i],
            followed(m, rows, s, i),
            followed(m, rows, s, i + 1),
            s,
        )
}

/// Whether a report tells how a state is brought up to the end of a history, and with
/// which steps.
pub open spec fn tells_sync(
    out: PulseSync,
    before: PulseModel,
    rows: Seq<PulseMinute>,
    s: PulseSettings,
) -> bool {
    match (history::sync_plan(history::stamps(rows), before.last_ts), out) {
        (SyncPlan::Nothing, PulseSync::Nothing) => true,
        (SyncPlan::Rebuild, PulseSync::Rebuilt(steps)) => are_steps(
            steps@,
            nothing_held(s),
            rows,
            s,
            rows.len() as int,
        ),
        (SyncPlan::From(k), PulseSync::Continued { from, steps }) => from == k && are_steps(
            steps@,
            before,
            rows.subrange(k as int, rows.len() as int),
            s,
            rows.len() - k,
        ),
        _ => false,
    }
}

/// How a state was brought up to the end of a history.
#[derive(Clone, Debug, PartialEq, Eq)]
pub enum PulseSync {
    /// It was there already.
    Nothing,
    /// It started over.
    Rebuilt(Vec<PulseStep>),
    /// It went on with the rows from this place.
    Continued { from: usize, steps: Vec<PulseStep> },
}

proof fn lemma_followed_split(
    m: PulseModel,
    rows: Seq<PulseMinute>,
    s: PulseSettings,
    k: int,
    n: int,
)
    requires
        0 <= k <= n <= rows.len(),
    ensures
        followed(m, rows, s, n) == followed(
            followed(m, rows.take(k), s, k),
            rows.subrange(k, rows.len() as int),
            s,
            n - k,
        ),
    decreases n,
{
    if n == k {
        lemma_followed_prefix(m, rows, s, k, k);
    } else {
        lemma_followed_split(m, rows, s, k, n - 1);
        assert(rows.subrange(k, rows.len() as int)[n - 1 - k] == rows[n - 1]);
    }
}

proof fn lemma_followed_prefix(
    m: PulseModel,
    rows: Seq<PulseMinute>,
    s: PulseSettings,
    k: int,
    n: int,
)
    requires
        0 <= n <= k <= rows.len(),
    ensures
        followed(m, rows, s, n) == followed(m, rows.take(k), s, n),
    decreases n,
{
    if n > 0 {
        lemma_followed_prefix(m, rows, s, k, n - 1);
        assert(rows.take(k)[n - 1] == rows[n - 1]);
    }
}

/// A state that followed the first `k` minutes and is then brought up to date holds what
/// a state holds that followed all minutes from the start.
pub proof fn law_sync_continues(rows: Seq<PulseMinute>, s: PulseSettings, k: int)
    requires
        0 < k <= rows.len() <= usize::MAX,
        history::minutes_apart(history::stamps(rows)),
        forall|i: int|
            0 <= i < rows.len() ==> -clock::INSTANT_LIMIT_US <= (#[trigger] rows[i]).ts_bucket
                <= clock::INSTANT_LIMIT_US,
    ensures
        synced(rebuilt(rows.take(k), s), rows, s) == rebuilt(rows, s),
{
    let ts = history::stamps(rows);
    let m = rebuilt(rows.take(k), s);
    assert(m.last_ts == Some(ts[k - 1]));
    assert(rows[k - 1].ts_bucket <= clock::INSTANT_LIMIT_US);
    history::law_sync_goes_on(ts, k);
    lemma_followed_split(nothing_held(s), rows, s, k, rows.len() as int);
    if k == rows.len() {
        assert(rows.take(k) =~= rows);
    }
}

/// A running state compares its rolling volumes from the same minute on as the whole
/// series does: once as many earlier ones are there as required.
pub proof fn law_state_is_ready_with_series(rows: Seq<PulseMinute>, s: PulseSettings, w: int, n: int)
    requires
        0 <= n <= rows.len(),
        0 <= w < s.z_windows.len(),
    ensures
        followed(nothing_held(s), rows, s, n).seen.len() == s.z_windows.len(),
        followed(nothing_held(s), rows, s, n).seen[w] == if n < required(
            s.z_windows[w],
            s.min_samples,
        ) {
            n
        } else {
            required(s.z_windows[w], s.min_samples)
        },
    decreases n,
{
    if n > 0 {
        law_state_is_ready_with_series(rows, s, w, n - 1);
    }
}

/// Whether a state makes up its last rolling volume of the points that a series makes it
/// up of.
pub open spec fn rolls_as_series(m: PulseModel, points: Seq<PulsePoint>, minutes: i64) -> bool {
    let ahead = points.len() - m.points.len();
    &&& m.points == points.subrange(ahead, points.len() as int)
    &&& rolling_start(m.points, minutes) matches Some(held) && Some(held + ahead)
        == rolling_start(points, minutes)
}

/// The points that a running state holds are the end of the series.
proof fn lemma_held_points(rows: Seq<PulseMinute>, s: PulseSettings, n: int) -> (k: int)
    requires
        0 <= n <= rows.len(),
        s.limit > 0,
        history::in_order(history::stamps(rows)),
        forall|i: int|
            0 <= i < rows.len() ==> -clock::INSTANT_LIMIT_US <= (#[trigger] rows[i]).ts_bucket
                <= clock::INSTANT_LIMIT_US - MINUTE_US,
    ensures
        0 <= k <= n,
        n > 0 ==> k < n,
        followed(nothing_held(s), rows, s, n).points == all_points(rows).subrange(k, n),
        forall|i: int|
            0 <= i < k ==> (#[trigger] all_points(rows)[i]).ts <= all_points(rows)[n - 1].ts
                - s.limit * MINUTE_US,
    decreases n,
{
    let points = all_points(rows);
    let ts = history::stamps(rows);
    if n == 0 {
        assert(points.subrange(0, 0) =~= Seq::<PulsePoint>::empty());
        0
    } else {
        let j = lemma_held_points(rows, s, n - 1);
        let p = point_of(rows[n - 1]);
        let cutoff = p.ts - s.limit * MINUTE_US;
        let all = followed(nothing_held(s), rows, s, n - 1).points.push(p);
        assert(all =~= points.subrange(j, n));
        let gone = point_upto(cutoff);
        let d = history::lemma_drop_while(all, gone);
        let k = j + d;
        assert(all.subrange(d, all.len() as int) =~= points.subrange(k, n));
        assert(s.limit * MINUTE_US > 0) by (nonlinear_arith)
            requires
                s.limit > 0,
        ;
        assert(k < n) by {
            if d == all.len() {
                assert(gone(all[all.len() - 1]));
            }
        }
        assert(-clock::INSTANT_LIMIT_US <= rows[n - 1].ts_bucket <= clock::INSTANT_LIMIT_US
            - MINUTE_US);
        assert forall|i: int| 0 <= i < k implies (#[trigger] points[i]).ts <= cutoff by {
            if i < j {
                assert(ts[n - 2] <= ts[n - 1]);
                assert(rows[n - 2].ts_bucket <= clock::INSTANT_LIMIT_US - MINUTE_US);
                assert(points[n - 2].ts <= p.ts);
            } else {
                assert(all[i - j] == points[i]);
                assert(gone(all[i - j]));
            }
        }
        k
    }
}

/// Over minutes in order a running state makes up the rolling volume at the last minute of
/// the same points as the whole series, for windows no longer than what it remembers.
#[verifier::rlimit(40)]
#[verifier::spinoff_prover]
pub proof fn law_state_rolls_with_series(rows: Seq<PulseMinute>, s: PulseSettings, minutes: i64)
    requires
        rows.len() > 0,
        1 <= s.limit <= clock::WINDOW_LIMIT_MINUTES,
        minutes <= s.limit,
        history::in_order(history::stamps(rows)),
        forall|i: int|
            0 <= i < rows.len() ==> -clock::INSTANT_LIMIT_US <= (#[trigger] rows[i]).ts_bucket
                <= clock::INSTANT_LIMIT_US - MINUTE_US,
    ensures
        rolls_as_series(rebuilt(rows, s), all_points(rows), minutes),
{
    let n = rows.len() as int;
    let points = all_points(rows);
    let k = lemma_held_points(rows, s, n);
    let m = rebuilt(rows, s);
    let ts = history::stamps(rows);
    let st = history::stamps(points);
    let st2 = history::stamps(m.points);
    let last = points.last().ts;
    assert(-clock::INSTANT_LIMIT_US <= rows[n - 1].ts_bucket <= clock::INSTANT_LIMIT_US
        - MINUTE_US);
    let span = avwap::at_least_one(minutes);
    assert(MINUTE_US <= span * MINUTE_US <= s.limit * MINUTE_US <= clock::WINDOW_LIMIT_MINUTES
        * MINUTE_US) by (nonlinear_arith)
        requires
            1 <= span <= s.limit <= clock::WINDOW_LIMIT_MINUTES,
    ;
    let target = (last - span * MINUTE_US + MINUTE_US) as i64;
    assert(history::in_order(st)) by {
        assert forall|a: int, b: int| 0 <= a <= b < st.len() implies st[a] <= st[b] by {
            assert(ts[a] <= ts[b]);
            assert(rows[a].ts_bucket == ts[a] && rows[b].ts_bucket == ts[b]);
            assert(-clock::INSTANT_LIMIT_US <= rows[b].ts_bucket <= clock::INSTANT_LIMIT_US
                - MINUTE_US);
            assert(-clock::INSTANT_LIMIT_US <= rows[a].ts_bucket <= clock::INSTANT_LIMIT_US
                - MINUTE_US);
        }
    }
    history::lemma_first_at_or_after(st, target);
    let a = history::first_at_or_after(st, target);
    assert(a >= k) by {
        if a < k {
            assert(points[a].ts <= last - s.limit * MINUTE_US);
            assert(st[a] < target);
        }
    }
    assert(a <= n - 1) by {
        assert(st[n - 1] >= target);
    }
    assert forall|i: int| 0 <= i < m.points.len() implies #[trigger] st2[i] == st[k + i] by {
        assert(m.points[i] == points[k + i]);
    }
    assert(history::in_order(st2)) by {
        assert forall|x: int, y: int| 0 <= x <= y < st2.len() implies st2[x] <= st2[y] by {
            assert(st[k + x] <= st[k + y]);
        }
    }
    history::lemma_first_at_or_after_is(st2, target, a - k);
    assert(m.points.last() == points.last());
}

/// Whether the front of a state's queue is the point that a series has the most volume at
/// in a window up to its end, the last of several.
pub open spec fn summarises_series(
    m: PulseModel,
    points: Seq<PulsePoint>,
    minutes: i64,
    w: int,
) -> bool {
    let n = points.len() as int;
    let start = window_start(points, points[n - 1].ts, minutes);
    &&& m.queues[w].len() > 0
    &&& exists|i: int| #[trigger] is_last_max(points, start, n, i) && points[i] == m.queues[w][0]
}

/// A running state finds in each summary window the point that the whole series has the
/// most volume at there, the last of several.
pub proof fn law_state_summary_matches_series(rows: Seq<PulseMinute>, s: PulseSettings, w: int)
    requires
        rows.len() > 0,
        0 <= w < s.summary_windows.len(),
        1 <= s.summary_windows[w] <= clock::WINDOW_LIMIT_MINUTES,
        history::in_order(history::stamps(rows)),
        forall|i: int|
            0 <= i < rows.len() ==> -clock::INSTANT_LIMIT_US <= (#[trigger] rows[i]).ts_bucket
                <= clock::INSTANT_LIMIT_US - MINUTE_US,
    ensures
        summarises_series(rebuilt(rows, s), all_points(rows), s.summary_windows[w], w),
{
    let points = all_points(rows);
    let n = rows.len() as int;
    let ts = history::stamps(rows);
    let st = history::stamps(points);
    lemma_queue_followed(rows, s, w, n);
    assert(history::in_order(st)) by {
        assert forall|a: int, b: int| 0 <= a <= b < st.len() implies st[a] <= st[b] by {
            assert(ts[a] <= ts[b]);
            assert(rows[a].ts_bucket == ts[a] && rows[b].ts_bucket == ts[b]);
        }
    }
    assert forall|i: int| 0 <= i < points.len() implies clock::is_instant(
        (#[trigger] points[i]).ts,
    ) by {
        assert(rows[i].ts_bucket <= clock::INSTANT_LIMIT_US - MINUTE_US);
    }
    law_queue_front_is_window_max(points, s.summary_windows[w], n);
    assert(points.take(n) =~= points);
}

proof fn lemma_queue_followed(rows: Seq<PulseMinute>, s: PulseSettings, w: int, n: int)
    requires
        0 <= n <= rows.len(),
        0 <= w < s.summary_windows.len(),
    ensures
        followed(nothing_held(s), rows, s, n).queues[w] == queue_of(
            all_points(rows),
            s.summary_windows[w] as int,
            n,
        ),
    decreases n,
{
    if n > 0 {
        lemma_queue_followed(rows, s, w, n - 1);
        assert(all_points(rows)[n - 1] == point_of(rows[n - 1]));
    }
}

/// Windows are known by four names, each as long as its name says.
pub proof fn law_windows_are_named(code: Seq<char>)
    ensures
        minutes_of(code) is Some <==> code == "15m"@ || code == "1h"@ || code == "4h"@ || code
            == "1d"@,
        minutes_of(code) matches Some(minutes) ==> clock::named_minutes(code) == minutes,
{
    clock::lemma_named_minutes();
}

/// No level of a profile has more volume than its point of control, and none behind it has as
/// much, so that there is only one.
pub proof fn law_point_of_control(levels: Seq<ProfileLevel>, i: int, j: int)
    requires
        is_poc(levels, i),
        0 <= j < levels.len(),
    ensures
        levels[j].total <= levels[i].total,
        j > i ==> levels[j].total < levels[i].total,
        is_poc(levels, j) ==> i == j,
{
    if is_poc(levels, j) {
        assert(levels[i].total <= levels[j].total);
    }
}

/// The window of some minutes up to an instant starts at the first of its points, of points in
/// order.
pub proof fn law_window_start(points: Seq<PulsePoint>, end_ts: i64, window_minutes: i64, j: int)
    requires
        0 <= j < points.len(),
        history::in_order(history::stamps(points)),
        clock::is_instant(end_ts),
        0 < window_minutes <= clock::WINDOW_LIMIT_MINUTES,
    ensures
        0 <= window_start(points, end_ts, window_minutes) <= points.len(),
        window_start(points, end_ts, window_minutes) <= j <==> points[j].ts >= end_ts
            - window_minutes * 60_000_000 + 60_000_000,
{
    assert(MINUTE_US <= window_minutes * MINUTE_US <= clock::WINDOW_LIMIT_MINUTES * MINUTE_US)
        by (nonlinear_arith)
        requires
            0 < window_minutes <= clock::WINDOW_LIMIT_MINUTES,
    ;
    let ts = history::stamps(points);
    let from = (end_ts - window_minutes * MINUTE_US + MINUTE_US) as i64;
    history::lemma_first_at_or_after(ts, from);
    assert(ts[j] < from <==> j < history::first_at_or_after(ts, from));
}

/// A volume is compared with at least five earlier ones, at least as many as asked for and at
/// least one for each minute of the window, and with no more than that takes.
pub proof fn law_required(window_minutes: i64, min_samples: usize)
    ensures
        required(window_minutes, min_samples) >= 5,
        required(window_minutes, min_samples) >= min_samples,
        required(window_minutes, min_samples) >= window_minutes,
        required(window_minutes, min_samples) == 5 || required(window_minutes, min_samples)
            == min_samples || required(window_minutes, min_samples) == window_minutes,
{
}

/// The point with the most volume of some: none of them has more, and none behind it as much.
pub proof fn law_last_max(points: Seq<PulsePoint>, lo: int, hi: int, i: int, j: int)
    requires
        is_last_max(points, lo, hi, i),
        lo <= j < hi,
    ensures
        lo <= i < hi,
        points[j].poc_volume <= points[i].poc_volume,
        j > i ==> points[j].poc_volume < points[i].poc_volume,
{
}

/// The summaries reported are those asked for by a known name, each over as many minutes as
/// its name says up to the last point, with the point that has the most volume there, the last
/// of several.
pub proof fn law_summaries(
    out: Seq<(usize, i64, Option<usize>)>,
    points: Seq<PulsePoint>,
    codes: Seq<String>,
    hi: int,
    i: int,
)
    requires
        are_summaries(out, points, codes, hi),
        0 <= i < hi <= codes.len() <= usize::MAX,
        0 < points.len() <= usize::MAX,
        history::in_order(history::stamps(points)),
        clock::is_instant(points.last().ts),
    ensures
        minutes_of(codes[i]@) is Some <==> exists|p: int|
            0 <= p < out.len() && (#[trigger] out[p]).0 == i,
        forall|p: int|
            0 <= p < out.len() && (#[trigger] out[p]).0 == i ==> is_summary(
                out[p],
                points,
                clock::named_minutes(codes[i]@),
            ),
        forall|p: int| 0 <= p < out.len() ==> (#[trigger] out[p]).0 < hi,
    decreases hi,
{
    law_windows_are_named(codes[hi - 1]@);
    match minutes_of(codes[hi - 1]@) {
        None => {
            if i < hi - 1 {
                law_summaries(out, points, codes, hi - 1, i);
            } else {
                lemma_summaries_before(out, points, codes, hi - 1);
            }
            lemma_summaries_before(out, points, codes, hi - 1);
        },
        Some(minutes) => {
            let rest = out.drop_last();
            lemma_summaries_before(rest, points, codes, hi - 1);
            assert forall|p: int| 0 <= p < rest.len() implies (#[trigger] out[p]).0 < hi - 1 by {
                assert(out[p] == rest[p]);
            }
            if i < hi - 1 {
                law_summaries(rest, points, codes, hi - 1, i);
                if exists|p: int| 0 <= p < rest.len() && (#[trigger] rest[p]).0 == i {
                    let p = choose|p: int| 0 <= p < rest.len() && (#[trigger] rest[p]).0 == i;
                    assert(out[p].0 == i);
                }
                assert forall|p: int| 0 <= p < out.len() && (#[trigger] out[p]).0 == i implies p
                    < rest.len() && out[p] == rest[p] by {}
            } else {
                assert(out[out.len() - 1].0 == i);
                let entry = out.last();
                let last = points.len() - 1;
                law_window_start(points, points.last().ts, minutes, last);
                let start = window_start(points, points.last().ts, minutes);
                assert(entry.2 is Some) by {
                    assert(minutes * 60_000_000 >= 60_000_000) by (nonlinear_arith)
                        requires
                            minutes >= 1,
                    ;
                }
                let at = entry.2->0 as int;
                law_window_start(points, points.last().ts, minutes, at);
                assert forall|j: int|
                    0 <= j < points.len() && (#[trigger] points[j]).ts > points.last().ts - minutes
                        * 60_000_000 + 59_999_999 implies points[j].poc_volume
                    <= points[at].poc_volume && (j > at ==> points[j].poc_volume
                    < points[at].poc_volume) by {
                    law_window_start(points, points.last().ts, minutes, j);
                }
            }
        },
    }
}

/// Whether a summary is that of the window of some minutes up to the last point: the place of
/// a point of that window that no other there has more volume than, and none behind it as much.
pub open spec fn is_summary(
    entry: (usize, i64, Option<usize>),
    points: Seq<PulsePoint>,
    minutes: int,
) -> bool {
    let after = points.last().ts - minutes * 60_000_000 + 59_999_999;
    &&& entry.1 == minutes
    &&& entry.2 matches Some(at) && at < points.len() && points[at as int].ts > after && forall|
        j: int,
    |
        0 <= j < points.len() && (#[trigger] points[j]).ts > after ==> points[j].poc_volume
            <= points[at as int].poc_volume && (j > at ==> points[j].poc_volume
            < points[at as int].poc_volume)
}

proof fn lemma_summaries_before(
    out: Seq<(usize, i64, Option<usize>)>,
    points: Seq<PulsePoint>,
    codes: Seq<String>,
    hi: int,
)
    requires
        are_summaries(out, points, codes, hi),
        0 <= hi <= codes.len(),
    ensures
        forall|p: int| 0 <= p < out.len() ==> (#[trigger] out[p]).0 < hi,
    decreases hi,
{
    if hi > 0 {
        match minutes_of(codes[hi - 1]@) {
            None => lemma_summaries_before(out, points, codes, hi - 1),
            Some(minutes) => {
                let rest = out.drop_last();
                lemma_summaries_before(rest, points, codes, hi - 1);
                assert forall|p: int| 0 <= p < out.len() implies (#[trigger] out[p]).0 < hi by {
                    if p < rest.len() {
                        assert(out[p] == rest[p]);
                    }
                }
            },
        }
    }
}

/// A minute that comes in is held, by its end, with those of the limit before it.
pub proof fn law_taken(m: PulseModel, row: PulseMinute, s: PulseSettings, p: PulsePoint)
    requires
        row.ts_bucket <= i64::MAX - 60_000_000,
        history::in_order(history::stamps(m.points.push(point_of(row)))),
    ensures
        ({
            let end = row.ts_bucket + 60_000_000;
            let added = PulsePoint { ts: end as i64, poc_volume: row.poc_volume };
            let after = taken(m, row, s);
            &&& after.last_ts == Some(row.ts_bucket)
            &&& after.points.contains(p) <==> (m.points.contains(p) || p == added) && p.ts > end
                - s.limit * 60_000_000
        }),
{
    let added = point_of(row);
    let all = m.points.push(added);
    let limit = added.ts - s.limit * MINUTE_US;
    let k = history::lemma_drop_while(all, point_upto(limit));
    let kept = history::drop_while(all, point_upto(limit));
    let st = history::stamps(all);
    if kept.contains(p) {
        let a = choose|a: int| 0 <= a < kept.len() && kept[a] == p;
        assert(all[k + a] == p);
        assert(st[k] <= st[k + a]);
        if k + a < m.points.len() {
            assert(m.points[k + a] == p);
        }
    }
    if (m.points.contains(p) || p == added) && p.ts > limit {
        let a = if m.points.contains(p) {
            choose|a: int| 0 <= a < m.points.len() && m.points[a] == p
        } else {
            m.points.len() as int
        };
        assert(all[a] == p);
        assert(a >= k) by {
            if a < k {
                assert(point_upto(limit)(all[a]));
            }
        }
        assert(kept[a - k] == p);
    }
}

/// A burst is notable from twice the usual spread on, and strong from three times on.
pub proof fn law_thresholds()
    ensures
        order::is_nearest(KEY_TWO, 2, 1),
        order::is_nearest(KEY_THREE, 3, 1),
{
    order::lemma_powers_of_two();
}

/// A step tells of each window of rolling volumes whether as many earlier ones had been seen as
/// it takes, and from which of the points now held on it is made up; and of each summary window
/// the point with the most volume, which is the first of its queue.
pub proof fn law_step(
    step: PulseStep,
    before: PulseModel,
    row: PulseMinute,
    s: PulseSettings,
    w: int,
    v: int,
    j: int,
)
    requires
        is_step(step, before, taken(before, row, s), s),
        0 <= w < s.z_windows.len(),
        0 <= v < s.summary_windows.len(),
        0 < s.z_windows[w] <= clock::WINDOW_LIMIT_MINUTES,
        history::in_order(history::stamps(taken(before, row, s).points)),
        0 <= j < taken(before, row, s).points.len() <= usize::MAX,
        clock::is_instant(taken(before, row, s).points.last().ts),
    ensures
        ({
            let after = taken(before, row, s);
            let enough = before.seen[w] >= 5 && before.seen[w] >= s.min_samples && before.seen[w]
                >= s.z_windows[w];
            let queue = after.queues[v];
            &&& step.ready@[w] <==> enough
            &&& step.replaced@[w] <==> enough
            &&& enough ==> after.seen[w] == before.seen[w]
            &&& !enough ==> after.seen[w] == before.seen[w] + 1
            &&& step.rolling_from@[w] is Some
            &&& step.rolling_from@[w]->0 <= j <==> after.points[j].ts >= after.points.last().ts
                - s.z_windows[w] * 60_000_000 + 60_000_000
            &&& queue.len() == 0 ==> step.summary@[v] is None
            &&& queue.len() > 0 ==> step.summary@[v] == Some(queue[0])
            &&& step.dropped + after.points.len() == before.points.len() + 1
        }),
{
    let after = taken(before, row, s);
    law_required(s.z_windows[w], s.min_samples);
    let last = after.points.len() - 1;
    law_window_start(after.points, after.points.last().ts, s.z_windows[w], j);
    law_window_start(after.points, after.points.last().ts, s.z_windows[w], last);
    assert(s.z_windows[w] * 60_000_000 >= 60_000_000) by (nonlinear_arith)
        requires
            s.z_windows[w] >= 1,
    ;
    assert(rolling_start(after.points, s.z_windows[w]) is Some);
    let from = step.rolling_from@[w];
    let ready = step.ready@[w];
    let replaced = step.replaced@[w];
    let summary = step.summary@[v];
}

} // verus!
