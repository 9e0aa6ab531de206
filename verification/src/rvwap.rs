//! Rolling volume-weighted average prices and the bands around them.

use crate::avwap;
use crate::avwap::{anchors, KEY_NO_VOLUME};
use crate::clock;
use crate::clock::{MINUTE_US, SECOND_US};
use crate::history;
use crate::history::{copied, lower_bound, lower_bound_queue, plan_sync, Stamped, SyncPlan};
use crate::order::Key;
use crate::rolling;
use crate::rolling::Trail;
use crate::text::same_text;
use std::collections::VecDeque;
use vstd::prelude::*;

verus! {

/// The minutes of a window, by its name.
pub open spec fn minutes_of(code: Seq<char>) -> Option<i64> {
    if code == "15m"@ {
        Some(15)
    } else if code == "1h"@ {
        Some(60)
    } else if code == "4h"@ {
        Some(240)
    } else if code == "1d"@ {
        Some(1440)
    } else if code == "3d"@ {
        Some(4320)
    } else {
        None
    }
}

/// The minutes of a window, by its name.
pub fn window_to_minutes(code: &str) -> (out: Option<i64>)
    ensures
        out == minutes_of(code@),
{
    if same_text(code, "15m") {
        Some(15)
    } else if same_text(code, "1h") {
        Some(60)
    } else if same_text(code, "4h") {
        Some(240)
    } else if same_text(code, "1d") {
        Some(1440)
    } else if same_text(code, "3d") {
        Some(4320)
    } else {
        None
    }
}

/// A minute, as far as its weight in the averages rests on it.
#[derive(Clone, Copy, Debug, PartialEq, Eq)]
pub struct RvwapMinute {
    pub ts_bucket: i64,
    pub high: Option<Key>,
    pub low: Option<Key>,
    pub close: Option<Key>,
    pub total_qty: Key,
}

impl Stamped for RvwapMinute {
    open spec fn at(&self) -> i64 {
        self.ts_bucket
    }

    fn ts(&self) -> (out: i64) {
        self.ts_bucket
    }
}

/// Whether a minute has a typical price: all its prices are known.
pub open spec fn has_typical_price(row: RvwapMinute) -> bool {
    row.high is Some && row.low is Some && row.close is Some
}

/// Whether a minute has a typical price.
pub fn typical_price_known(row: &RvwapMinute) -> (out: bool)
    ensures
        out == has_typical_price(*row),
{
    row.high.is_some() && row.low.is_some() && row.close.is_some()
}

/// A minute with a typical price, and how many of the minutes up to it had volume.
#[derive(Clone, Copy, Debug, PartialEq, Eq)]
pub struct WeightedPoint {
    pub ts_bucket: i64,
    pub prefix_positive_samples: usize,
}

impl Stamped for WeightedPoint {
    open spec fn at(&self) -> i64 {
        self.ts_bucket
    }

    fn ts(&self) -> (out: i64) {
        self.ts_bucket
    }
}

/// How many samples a minute counts for.
pub open spec fn sample_of(row: RvwapMinute) -> int {
    if row.total_qty > 0 {
        1
    } else {
        0
    }
}

/// The samples up to the end of a run of points.
pub open spec fn samples_upto(points: Seq<WeightedPoint>, base: int) -> int {
    if points.len() == 0 {
        base
    } else {
        points.last().prefix_positive_samples as int
    }
}

/// The points of the first `hi` rows: the minutes with a typical price.
pub open spec fn points_of(rows: Seq<RvwapMinute>, hi: int) -> Seq<WeightedPoint>
    decreases hi,
{
    if hi <= 0 {
        Seq::empty()
    } else {
        let rest = points_of(rows, hi - 1);
        if has_typical_price(rows[hi - 1]) {
            rest.push(
                WeightedPoint {
                    ts_bucket: rows[hi - 1].ts_bucket,
                    prefix_positive_samples: (samples_upto(rest, 0) + sample_of(
                        rows[hi - 1],
                    )) as usize,
                },
            )
        } else {
            rest
        }
    }
}

/// Counts that never fall.
pub open spec fn counts_rise(points: Seq<WeightedPoint>) -> bool {
    forall|i: int, j: int|
        0 <= i <= j < points.len() ==> (#[trigger] points[i]).prefix_positive_samples <= (
        #[trigger] points[j]).prefix_positive_samples
}

proof fn lemma_points_of(rows: Seq<RvwapMinute>, hi: int)
    requires
        0 <= hi <= rows.len(),
        rows.len() < usize::MAX,
    ensures
        points_of(rows, hi).len() <= hi,
        0 <= samples_upto(points_of(rows, hi), 0) <= hi,
        counts_rise(points_of(rows, hi)),
    decreases hi,
{
    if hi > 0 {
        lemma_points_of(rows, hi - 1);
        let rest = points_of(rows, hi - 1);
        let all = points_of(rows, hi);
        assert forall|i: int, j: int| 0 <= i <= j < all.len() implies (
        #[trigger] all[i]).prefix_positive_samples <= (
        #[trigger] all[j]).prefix_positive_samples by {
            if j < rest.len() {
                assert(rest[i] == all[i] && rest[j] == all[j]);
            } else if i < rest.len() {
                assert(rest[i] == all[i]);
                assert(rest[i].prefix_positive_samples <= rest[rest.len()
                    - 1].prefix_positive_samples);
            }
        }
    }
}

/// The points of a history, and the row that each stands for.
pub fn collect_weighted_series(rows: &[RvwapMinute]) -> (out: (Vec<WeightedPoint>, Vec<usize>))
    requires
        rows@.len() < usize::MAX,
    ensures
        out.0@ == points_of(rows@, rows@.len() as int),
        counts_rise(out.0@),
        out.1@.len() == out.0@.len(),
        forall|p: int|
            0 <= p < out.1@.len() ==> (#[trigger] out.1@[p]) < rows@.len() && has_typical_price(
                rows@[out.1@[p] as int],
            ) && rows@[out.1@[p] as int].ts_bucket == out.0@[p].ts_bucket,
        forall|p: int, q: int|
            0 <= p < q < out.1@.len() ==> (#[trigger] out.1@[p]) < (#[trigger] out.1@[q]),
{
    let n: usize = rows.len();
    let mut points: Vec<WeightedPoint> = Vec::new();
    let mut places: Vec<usize> = Vec::new();
    let mut count: usize = 0;
    let mut i: usize = 0;
    while i < n
        invariant
            i <= n,
            n == rows@.len(),
            n < usize::MAX,
            count <= i,
            count == samples_upto(points@, 0),
            points@ == points_of(rows@, i as int),
            places@.len() == points@.len(),
            forall|p: int|
                0 <= p < places@.len() ==> (#[trigger] places@[p]) < i && has_typical_price(
                    rows@[places@[p] as int],
                ) && rows@[places@[p] as int].ts_bucket == points@[p].ts_bucket,
            forall|p: int, q: int|
                0 <= p < q < places@.len() ==> (#[trigger] places@[p]) < (#[trigger] places@[q]),
        decreases n - i,
    {
        let row: RvwapMinute = rows[i];
        if typical_price_known(&row) {
            if row.total_qty > 0 {
                count += 1;
            }
            points.push(
                WeightedPoint { ts_bucket: row.ts_bucket, prefix_positive_samples: count },
            );
            places.push(i);
        }
        i += 1;
    }
    proof {
        lemma_points_of(rows@, n as int);
    }
    (points, places)
}

/// The points that an average is taken over, and how many of them had volume.
#[derive(Clone, Copy, Debug, PartialEq, Eq)]
pub struct StatsWindow {
    pub start_idx: usize,
    pub end_idx: usize,
    pub sample_count: usize,
}

/// The points of the window of some minutes up to the point at `end_idx`; none where the
/// window has fewer samples with volume than asked for. `base` counts the samples before
/// the first point.
pub open spec fn stats_window(
    points: Seq<WeightedPoint>,
    base: int,
    end_idx: int,
    window_minutes: i64,
    min_samples: usize,
) -> Option<StatsWindow> {
    if !(0 <= end_idx < points.len()) {
        None
    } else {
        let start = history::first_at_or_after(
            history::stamps(points),
            (points[end_idx].ts_bucket - avwap::at_least_one(window_minutes) * MINUTE_US
                + MINUTE_US) as i64,
        );
        if start > end_idx {
            None
        } else {
            let before = if start == 0 {
                base
            } else {
                points[start - 1].prefix_positive_samples as int
            };
            let count = points[end_idx].prefix_positive_samples - before;
            if count < min_samples {
                None
            } else {
                Some(
                    StatsWindow {
                        start_idx: start as usize,
                        end_idx: end_idx as usize,
                        sample_count: count as usize,
                    },
                )
            }
        }
    }
}

/// The points of the window of some minutes up to the point at `end_idx`.
pub fn compute_stats_at(
    points: &[WeightedPoint],
    end_idx: usize,
    window_minutes: i64,
    min_samples: usize,
) -> (out: Option<StatsWindow>)
    requires
        counts_rise(points@),
        window_minutes <= clock::WINDOW_LIMIT_MINUTES,
        end_idx < points@.len() ==> clock::is_instant(points@[end_idx as int].ts_bucket),
    ensures
        out == stats_window(points@, 0, end_idx as int, window_minutes, min_samples),
{
    if end_idx >= points.len() {
        return None;
    }
    let asked: i64 = if window_minutes < 1 {
        1
    } else {
        window_minutes
    };
    let start: usize = lower_bound(
        points,
        points[end_idx].ts_bucket - asked * MINUTE_US + MINUTE_US,
    );
    if start > end_idx {
        return None;
    }
    let before: usize = if start == 0 {
        0
    } else {
        points[start - 1].prefix_positive_samples
    };
    let count: usize = points[end_idx].prefix_positive_samples - before;
    if count < min_samples {
        None
    } else {
        Some(StatsWindow { start_idx: start, end_idx, sample_count: count })
    }
}

/// Whether the volume of a window is enough to average over.
pub fn has_volume(sum_weight: Key) -> (out: bool)
    ensures
        out == (sum_weight > avwap::KEY_NO_VOLUME),
{
    sum_weight > KEY_NO_VOLUME
}

/// The points of a history, in order, after which a bar of some minutes ends, up to the
/// first `hi`.
pub open spec fn output_points(points: Seq<WeightedPoint>, out_minutes: i64, hi: int) -> Seq<usize>
    decreases hi,
{
    if hi <= 0 {
        Seq::empty()
    } else if avwap::is_anchor(points[hi - 1].ts_bucket + MINUTE_US, out_minutes as int) {
        output_points(points, out_minutes, hi - 1).push((hi - 1) as usize)
    } else {
        output_points(points, out_minutes, hi - 1)
    }
}

/// The points of a history, in order, after which a bar of some minutes ends.
pub fn points_to_report(points: &[WeightedPoint], out_minutes: i64) -> (out: Vec<usize>)
    requires
        0 < out_minutes <= clock::WINDOW_LIMIT_MINUTES,
        forall|i: int|
            0 <= i < points@.len() ==> -clock::INSTANT_LIMIT_US <= (
            #[trigger] points@[i]).ts_bucket <= clock::INSTANT_LIMIT_US - MINUTE_US,
    ensures
        out@ == output_points(points@, out_minutes, points@.len() as int),
{
    let mut out: Vec<usize> = Vec::new();
    let n: usize = points.len();
    let mut i: usize = 0;
    while i < n
        invariant
            i <= n,
            n == points@.len(),
            0 < out_minutes <= clock::WINDOW_LIMIT_MINUTES,
            forall|j: int|
                0 <= j < points@.len() ==> -clock::INSTANT_LIMIT_US <= (
                #[trigger] points@[j]).ts_bucket <= clock::INSTANT_LIMIT_US - MINUTE_US,
            out@ == output_points(points@, out_minutes, i as int),
        decreases n - i,
    {
        if anchors(points[i].ts_bucket + MINUTE_US, out_minutes) {
            out.push(i);
        }
        i += 1;
    }
    out
}

/// The rolling average price indicator.
pub struct I21RvwapSigmaBands;

impl I21RvwapSigmaBands {
    /// The code of the indicator.
    pub fn code(&self) -> (out: &'static str)
        ensures
            out@ == "rvwap_sigma_bands"@,
    {
        "rvwap_sigma_bands"
    }

    /// For each window that is known the points that it averages over at the end of the
    /// series, by the place of the window among those asked for.
    pub fn evaluate(
        &self,
        points: &[WeightedPoint],
        window_codes: &[String],
        min_samples: usize,
    ) -> (out: Vec<(usize, i64, Option<StatsWindow>)>)
        requires
            counts_rise(points@),
            points@.len() > 0 ==> clock::is_instant(points@.last().ts_bucket),
        ensures
            out@ == reported_windows(points@, window_codes@, min_samples, window_codes@.len() as int),
    {
        let mut out: Vec<(usize, i64, Option<StatsWindow>)> = Vec::new();
        let n: usize = points.len();
        if n == 0 {
            proof {
                lemma_nothing_reported(
                    points@,
                    window_codes@,
                    min_samples,
                    window_codes@.len() as int,
                );
            }
            return out;
        }
        let mut w: usize = 0;
        while w < window_codes.len()
            invariant
                w <= window_codes@.len(),
                n == points@.len(),
                n > 0,
                counts_rise(points@),
                clock::is_instant(points@.last().ts_bucket),
                out@ == reported_windows(points@, window_codes@, min_samples, w as int),
            decreases window_codes@.len() - w,
        {
            if let Some(minutes) = window_to_minutes(&window_codes[w]) {
                let stats: Option<StatsWindow> = compute_stats_at(
                    points,
                    n - 1,
                    minutes,
                    min_samples,
                );
                out.push((w, minutes, stats));
            }
            w += 1;
        }
        out
    }
}

/// The known ones of the first `hi` windows with the points they average over at the end
/// of a series; none where the series is empty.
pub open spec fn reported_windows(
    points: Seq<WeightedPoint>,
    window_codes: Seq<String>,
    min_samples: usize,
    hi: int,
) -> Seq<(usize, i64, Option<StatsWindow>)>
    decreases hi,
{
    if hi <= 0 || points.len() == 0 {
        Seq::empty()
    } else {
        let rest = reported_windows(points, window_codes, min_samples, hi - 1);
        match minutes_of(window_codes[hi - 1]@) {
            Some(minutes) => rest.push(
                (
                    (hi - 1) as usize,
                    minutes,
                    stats_window(points, 0, points.len() - 1, minutes, min_samples),
                ),
            ),
            None => rest,
        }
    }
}

proof fn lemma_nothing_reported(
    points: Seq<WeightedPoint>,
    window_codes: Seq<String>,
    min_samples: usize,
    hi: int,
)
    requires
        points.len() == 0,
    ensures
        reported_windows(points, window_codes, min_samples, hi) =~= Seq::empty(),
{
}

/// What is held while minutes come in.
pub struct RvwapModel {
    /// The points that are not too far back.
    pub points: Seq<WeightedPoint>,
    /// The samples with volume before the first point.
    pub base: int,
    /// For each output window the instants reported.
    pub series: Seq<Seq<i64>>,
    /// The last minute.
    pub last_ts: Option<i64>,
}

/// What a state was made with.
pub struct RvwapSettings {
    /// The minutes of the windows averaged over.
    pub rolling: Seq<i64>,
    /// The minutes of the output windows.
    pub outputs: Seq<i64>,
    /// The fewest samples with volume that are averaged over.
    pub min_samples: usize,
    /// How many minutes are remembered.
    pub limit: int,
}

/// Nothing held, for some output windows.
pub open spec fn nothing_held(outputs: nat) -> RvwapModel {
    RvwapModel {
        points: Seq::empty(),
        base: 0,
        series: Seq::new(outputs, |w: int| Seq::<i64>::empty()),
        last_ts: None,
    }
}

/// Whether a point lies no later than a limit.
pub open spec fn point_upto(limit: int) -> spec_fn(WeightedPoint) -> bool {
    |p: WeightedPoint| p.ts_bucket <= limit
}

/// What is held after one more minute: nothing new but the minute's name where it has no
/// typical price; else its point, with the points that lie `limit` minutes back or more
/// forgotten, and an instant in each output window whose bar ends with the minute.
pub open spec fn taken(
    m: RvwapModel,
    row: RvwapMinute,
    outputs: Seq<i64>,
    limit: int,
) -> RvwapModel {
    if !has_typical_price(row) {
        RvwapModel { last_ts: Some(row.ts_bucket), ..m }
    } else {
        let point = WeightedPoint {
            ts_bucket: row.ts_bucket,
            prefix_positive_samples: (samples_upto(m.points, m.base) + sample_of(row)) as usize,
        };
        let all = m.points.push(point);
        let kept = history::drop_while(all, point_upto(row.ts_bucket - limit * MINUTE_US));
        let anchor = (row.ts_bucket + MINUTE_US) as i64;
        RvwapModel {
            points: kept,
            base: if kept.len() < all.len() {
                all[all.len() - kept.len() - 1].prefix_positive_samples as int
            } else {
                m.base
            },
            series: Seq::new(
                m.series.len(),
                |w: int|
                    if avwap::is_anchor(anchor as int, outputs[w] as int) {
                        rolling::rolled(m.series[w], anchor, anchor - limit * MINUTE_US)
                    } else {
                        m.series[w]
                    },
            ),
            last_ts: Some(row.ts_bucket),
        }
    }
}

/// What is held after the first `n` rows came in one by one.
pub open spec fn followed(
    m: RvwapModel,
    rows: Seq<RvwapMinute>,
    outputs: Seq<i64>,
    limit: int,
    n: int,
) -> RvwapModel
    decreases n,
{
    if n <= 0 {
        m
    } else {
        taken(followed(m, rows, outputs, limit, n - 1), rows[n - 1], outputs, limit)
    }
}

/// What is held after a whole history came in.
pub open spec fn rebuilt(rows: Seq<RvwapMinute>, outputs: Seq<i64>, limit: int) -> RvwapModel {
    followed(nothing_held(outputs.len()), rows, outputs, limit, rows.len() as int)
}

/// What is held after a state was brought up to the end of a history.
pub open spec fn synced(
    m: RvwapModel,
    rows: Seq<RvwapMinute>,
    outputs: Seq<i64>,
    limit: int,
) -> RvwapModel {
    match history::sync_plan(history::stamps(rows), m.last_ts) {
        SyncPlan::Rebuild => rebuilt(rows, outputs, limit),
        SyncPlan::Nothing => m,
        SyncPlan::From(k) => followed(
            m,
            rows.subrange(k as int, rows.len() as int),
            outputs,
            limit,
            rows.len() - k,
        ),
    }
}

/// What one minute changed.
#[derive(Clone, Debug, PartialEq, Eq)]
pub struct RvwapStep {
    /// Whether the minute got a point.
    pub appended: bool,
    /// How many of the oldest points fell out.
    pub dropped: usize,
    /// For each output window whether an instant was reported.
    pub reported: Vec<bool>,
    /// For each output window how many of its oldest instants fell out.
    pub forgotten: Vec<usize>,
    /// For each window the points it averages over now, if the minute got a point.
    pub stats: Vec<Option<StatsWindow>>,
}

/// Whether a step says what changed between two models.
pub open spec fn is_step(
    step: RvwapStep,
    before: RvwapModel,
    after: RvwapModel,
    row: RvwapMinute,
    s: RvwapSettings,
) -> bool {
    let outputs = s.outputs;
    &&& step.stats@.len() == if step.appended {
        s.rolling.len()
    } else {
        0
    }
    &&& forall|w: int|
        0 <= w < step.stats@.len() ==> #[trigger] step.stats@[w] == stats_window(
            after.points,
            after.base,
            after.points.len() - 1,
            s.rolling[w],
            s.min_samples,
        )
    &&& step.appended == has_typical_price(row)
    &&& step.dropped == before.points.len() + (if step.appended {
        1int
    } else {
        0
    }) - after.points.len()
    &&& step.reported@.len() == outputs.len()
    &&& step.forgotten@.len() == outputs.len()
    &&& forall|w: int|
        0 <= w < outputs.len() ==> (#[trigger] step.reported@[w]) == (step.appended
            && avwap::is_anchor(row.ts_bucket + MINUTE_US, outputs[w] as int))
    &&& forall|w: int|
        0 <= w < outputs.len() ==> (#[trigger] step.forgotten@[w]) == before.series[w].len() + (
        if step.reported@[w] {
            1int
        } else {
            0
        }) - after.series[w].len()
}

/// The running state of the rolling averages.
#[derive(Debug)]
pub struct RvwapState {
    rolling: Vec<i64>,
    outputs: Vec<i64>,
    min_samples: usize,
    limit: i64,
    points: VecDeque<WeightedPoint>,
    base: usize,
    series: Vec<Trail>,
    last_ts: Option<i64>,
}

impl View for RvwapState {
    type V = RvwapModel;

    closed spec fn view(&self) -> RvwapModel {
        RvwapModel {
            points: self.points@,
            base: self.base as int,
            series: Seq::new(self.series@.len(), |w: int| self.series@[w]@),
            last_ts: self.last_ts,
        }
    }
}

impl RvwapState {
    /// What the state was made with.
    pub closed spec fn settings(&self) -> RvwapSettings {
        RvwapSettings {
            rolling: self.rolling@,
            outputs: self.outputs@,
            min_samples: self.min_samples,
            limit: self.limit as int,
        }
    }

    /// One series for each output window, and counts that never fall.
    pub closed spec fn well_formed(&self) -> bool {
        &&& self.series@.len() == self.outputs@.len()
        &&& forall|w: int|
            0 <= w < self.outputs@.len() ==> 0 < (#[trigger] self.outputs@[w])
                <= clock::WINDOW_LIMIT_MINUTES
        &&& forall|w: int|
            0 <= w < self.rolling@.len() ==> (#[trigger] self.rolling@[w]) <= clock::WINDOW_LIMIT_MINUTES
        &&& 0 <= self.limit <= clock::WINDOW_LIMIT_MINUTES
        &&& counts_rise(self.points@)
        &&& self.points@.len() > 0 ==> self.base <= self.points@[0].prefix_positive_samples
        &&& forall|i: int|
            0 <= i < self.points@.len() ==> clock::is_instant(
                (#[trigger] self.points@[i]).ts_bucket,
            )
        &&& self.last_ts matches Some(last) ==> last <= clock::INSTANT_LIMIT_US
    }

    /// A state that has followed nothing and remembers `limit` minutes.
    pub fn new(
        rolling: Vec<i64>,
        outputs: Vec<i64>,
        min_samples: usize,
        limit: i64,
    ) -> (out: Self)
        requires
            forall|w: int|
                0 <= w < rolling@.len() ==> (#[trigger] rolling@[w]) <= clock::WINDOW_LIMIT_MINUTES,
            forall|w: int|
                0 <= w < outputs@.len() ==> 0 < (#[trigger] outputs@[w]) <= clock::WINDOW_LIMIT_MINUTES,
            0 <= limit <= clock::WINDOW_LIMIT_MINUTES,
        ensures
            out.well_formed(),
            out.settings() == (RvwapSettings {
                rolling: rolling@,
                outputs: outputs@,
                min_samples,
                limit: limit as int,
            }),
            out@ == nothing_held(outputs@.len()),
    {
        let mut series: Vec<Trail> = Vec::new();
        let n: usize = outputs.len();
        let mut w: usize = 0;
        while w < n
            invariant
                w <= n,
                series@.len() == w,
                forall|i: int| 0 <= i < w ==> (#[trigger] series@[i])@ == Seq::<i64>::empty(),
            decreases n - w,
        {
            series.push(Trail::new());
            w += 1;
        }
        let out = RvwapState {
            rolling,
            outputs,
            min_samples,
            limit,
            points: VecDeque::new(),
            base: 0,
            series,
            last_ts: None,
        };
        assert(out@.series =~= nothing_held(outputs@.len()).series);
        out
    }

    /// The last minute followed.
    pub fn last_ts(&self) -> (out: Option<i64>)
        ensures
            out == self@.last_ts,
    {
        self.last_ts
    }

    /// How many points are held.
    pub fn len(&self) -> (out: usize)
        ensures
            out == self@.points.len(),
    {
        self.points.len()
    }

    /// Takes one minute in.
    #[verifier::rlimit(50)]
    #[verifier::spinoff_prover]
    pub fn append_minute(&mut self, row: &RvwapMinute) -> (out: RvwapStep)
        requires
            old(self).well_formed(),
            -clock::INSTANT_LIMIT_US <= row.ts_bucket <= clock::INSTANT_LIMIT_US - MINUTE_US,
            samples_upto(old(self)@.points, old(self)@.base) < usize::MAX,
        ensures
            final(self).well_formed(),
            final(self).settings() == old(self).settings(),
            final(self)@ == taken(
                old(self)@,
                *row,
                old(self).settings().outputs,
                old(self).settings().limit,
            ),
            is_step(out, old(self)@, final(self)@, *row, old(self).settings()),
            samples_upto(final(self)@.points, final(self)@.base) <= samples_upto(
                old(self)@.points,
                old(self)@.base,
            ) + 1,
    {
        let ts: i64 = row.ts_bucket;
        let outs: usize = self.outputs.len();
        if !typical_price_known(row) {
            self.last_ts = Some(ts);
            let mut reported: Vec<bool> = Vec::new();
            let mut forgotten: Vec<usize> = Vec::new();
            let mut w: usize = 0;
            while w < outs
                invariant
                    w <= outs,
                    reported@.len() == w,
                    forgotten@.len() == w,
                    forall|i: int| 0 <= i < w ==> !(#[trigger] reported@[i]),
                    forall|i: int| 0 <= i < w ==> (#[trigger] forgotten@[i]) == 0,
                decreases outs - w,
            {
                reported.push(false);
                forgotten.push(0);
                w += 1;
            }
            proof {
                assert(self@.series =~= old(self)@.series);
            }
            return RvwapStep {
                appended: false,
                dropped: 0,
                reported,
                forgotten,
                stats: Vec::new(),
            };
        }
        let held: usize = self.points.len();
        let so_far: usize = if held == 0 {
            self.base
        } else {
            self.points[held - 1].prefix_positive_samples
        };
        let count: usize = if row.total_qty > 0 {
            so_far + 1
        } else {
            so_far
        };
        let point: WeightedPoint = WeightedPoint { ts_bucket: ts, prefix_positive_samples: count };
        self.points.push_back(point);
        let ghost all = self.points@;
        let ghost old_base = self.base;
        let cutoff: i64 = ts - self.limit * MINUTE_US;
        let ghost gone = point_upto(cutoff as int);
        proof {
            assert(counts_rise(all)) by {
                let rest = old(self).points@;
                assert forall|i: int, j: int| 0 <= i <= j < all.len() implies (
                #[trigger] all[i]).prefix_positive_samples <= (
                #[trigger] all[j]).prefix_positive_samples by {
                    if j < rest.len() {
                        assert(rest[i] == all[i] && rest[j] == all[j]);
                    } else if i < rest.len() {
                        assert(rest[i] == all[i]);
                        assert(rest[i].prefix_positive_samples <= rest[rest.len()
                            - 1].prefix_positive_samples);
                    }
                }
            }
        }
        let total: usize = self.points.len();
        let ghost series_before = self.series@;
        let ghost outputs = self.outputs@;
        let ghost limit = self.limit as int;
        let ghost rolling_windows = self.rolling@;
        let ghost min_samples = self.min_samples;
        let mut dropped: usize = 0;
        proof {
            assert(all.subrange(0, all.len() as int) =~= all);
        }
        while self.points.len() > 0 && self.points[0].ts_bucket <= cutoff
            invariant
                gone == point_upto(cutoff as int),
                total == all.len(),
                dropped <= total,
                self.points@ == all.subrange(dropped as int, all.len() as int),
                history::drop_while(self.points@, gone) == history::drop_while(all, gone),
                self.base == if dropped == 0 {
                    old_base
                } else {
                    all[dropped - 1].prefix_positive_samples
                },
                self.series@ == series_before,
                self.outputs@ == outputs,
                self.rolling@ == rolling_windows,
                self.min_samples == min_samples,
                self.limit == limit,
                self.last_ts == old(self).last_ts,
            decreases self.points@.len(),
        {
            let ghost now = self.points@;
            proof {
                assert(gone(now[0]));
            }
            self.base = self.points[0].prefix_positive_samples;
            let _ = self.points.pop_front();
            assert(self.points@ =~= now.drop_first());
            assert(self.points@ =~= all.subrange(dropped + 1, all.len() as int));
            dropped += 1;
        }
        proof {
            if self.points@.len() > 0 {
                assert(!gone(self.points@[0]));
            }
            history::lemma_drop_while_none(self.points@, gone);
            assert forall|i: int, j: int| 0 <= i <= j < self.points@.len() implies (
            #[trigger] self.points@[i]).prefix_positive_samples <= (
            #[trigger] self.points@[j]).prefix_positive_samples by {
                assert(self.points@[i] == all[dropped + i]);
                assert(self.points@[j] == all[dropped + j]);
            }
            if self.points@.len() > 0 && dropped > 0 {
                assert(self.points@[0] == all[dropped as int]);
                assert(all[dropped - 1].prefix_positive_samples
                    <= all[dropped as int].prefix_positive_samples);
            }
            if self.points@.len() > 0 {
                assert(self.points@.last() == all.last());
            }
            assert forall|i: int| 0 <= i < self.points@.len() implies clock::is_instant(
                (#[trigger] self.points@[i]).ts_bucket,
            ) by {
                assert(self.points@[i] == all[dropped + i]);
            }
        }
        let anchor: i64 = ts + MINUTE_US;
        let memory: i64 = anchor - self.limit * MINUTE_US;
        let mut reported: Vec<bool> = Vec::new();
        let mut forgotten: Vec<usize> = Vec::new();
        let ghost points_after = self.points@;
        let ghost base_after = self.base;
        let mut w: usize = 0;
        while w < outs
            invariant
                w <= outs,
                outs == outputs.len(),
                series_before.len() == outs,
                self.series@.len() == outs,
                self.outputs@ == outputs,
                self.rolling@ == rolling_windows,
                self.min_samples == min_samples,
                self.limit == limit,
                self.points@ == points_after,
                self.base == base_after,
                forall|i: int|
                    0 <= i < outputs.len() ==> 0 < (#[trigger] outputs[i]) <= clock::WINDOW_LIMIT_MINUTES,
                anchor == ts + MINUTE_US,
                memory == anchor - limit * MINUTE_US,
                -clock::INSTANT_LIMIT_US <= ts <= clock::INSTANT_LIMIT_US - MINUTE_US,
                reported@.len() == w,
                forgotten@.len() == w,
                forall|i: int| w <= i < outs ==> #[trigger] self.series@[i] == series_before[i],
                forall|i: int|
                    0 <= i < w ==> (#[trigger] self.series@[i])@ == if avwap::is_anchor(
                        anchor as int,
                        outputs[i] as int,
                    ) {
                        rolling::rolled(series_before[i]@, anchor, memory as int)
                    } else {
                        series_before[i]@
                    },
                forall|i: int|
                    0 <= i < w ==> #[trigger] reported@[i] == avwap::is_anchor(
                        anchor as int,
                        outputs[i] as int,
                    ),
                forall|i: int|
                    0 <= i < w ==> #[trigger] forgotten@[i] == series_before[i]@.len() + (
                    if reported@[i] {
                        1int
                    } else {
                        0
                    }) - self.series@[i]@.len(),
            decreases outs - w,
        {
            let ghost now = self.series@;
            assert(0 < outputs[w as int] <= clock::WINDOW_LIMIT_MINUTES);
            if anchors(anchor, self.outputs[w]) {
                self.series[w].push(anchor);
                let old_ones: usize = self.series[w].drop_upto(memory);
                reported.push(true);
                forgotten.push(old_ones);
            } else {
                reported.push(false);
                forgotten.push(0);
            }
            proof {
                assert(forall|i: int| 0 <= i < outs && i != w ==> #[trigger] self.series@[i]
                    == now[i]);
            }
            w += 1;
        }
        self.last_ts = Some(ts);
        proof {
            let m = taken(old(self)@, *row, outputs, limit);
            assert(self@.series =~= m.series);
            assert(self@.points == m.points);
        }
        let stats: Vec<Option<StatsWindow>> = self.current_stats_by_window();
        RvwapStep { appended: true, dropped, reported, forgotten, stats }
    }

    /// For each window the points it averages over at the last point.
    pub fn current_stats_by_window(&self) -> (out: Vec<Option<StatsWindow>>)
        requires
            self.well_formed(),
        ensures
            out@.len() == self.settings().rolling.len(),
            forall|w: int|
                0 <= w < out@.len() ==> #[trigger] out@[w] == stats_window(
                    self@.points,
                    self@.base,
                    self@.points.len() - 1,
                    self.settings().rolling[w],
                    self.settings().min_samples,
                ),
    {
        let n: usize = self.rolling.len();
        let held: usize = self.points.len();
        let mut out: Vec<Option<StatsWindow>> = Vec::new();
        let mut w: usize = 0;
        while w < n
            invariant
                w <= n,
                n == self.rolling@.len(),
                held == self.points@.len(),
                self.well_formed(),
                out@.len() == w,
                forall|i: int|
                    0 <= i < w ==> #[trigger] out@[i] == stats_window(
                        self@.points,
                        self@.base,
                        self@.points.len() - 1,
                        self.settings().rolling[i],
                        self.settings().min_samples,
                    ),
            decreases n - w,
        {
            assert(self.rolling@[w as int] <= clock::WINDOW_LIMIT_MINUTES);
            if held == 0 {
                out.push(None);
            } else {
                out.push(self.compute_stats_at(held - 1, self.rolling[w], self.min_samples));
            }
            w += 1;
        }
        out
    }

    /// The points of the window of some minutes up to the point at `end_idx`.
    pub fn compute_stats_at(&self, end_idx: usize, window_minutes: i64, min_samples: usize) -> (out:
        Option<StatsWindow>)
        requires
            self.well_formed(),
            window_minutes <= clock::WINDOW_LIMIT_MINUTES,
        ensures
            out == stats_window(
                self@.points,
                self@.base,
                end_idx as int,
                window_minutes,
                min_samples,
            ),
    {
        if end_idx >= self.points.len() {
            return None;
        }
        assert(clock::is_instant(self.points@[end_idx as int].ts_bucket));
        let asked: i64 = if window_minutes < 1 {
            1
        } else {
            window_minutes
        };
        let start: usize = lower_bound_queue(
            &self.points,
            self.points[end_idx].ts_bucket - asked * MINUTE_US + MINUTE_US,
        );
        if start > end_idx {
            return None;
        }
        let before: usize = if start == 0 {
            self.base
        } else {
            self.points[start - 1].prefix_positive_samples
        };
        proof {
            assert(self.points@[0].prefix_positive_samples
                <= self.points@[end_idx as int].prefix_positive_samples);
        }
        let count: usize = self.points[end_idx].prefix_positive_samples - before;
        if count < min_samples {
            None
        } else {
            Some(StatsWindow { start_idx: start, end_idx, sample_count: count })
        }
    }

    /// Takes rows in, one by one.
    fn append_all(&mut self, rows: &[RvwapMinute]) -> (out: Vec<RvwapStep>)
        requires
            old(self).well_formed(),
            forall|i: int|
                0 <= i < rows@.len() ==> -clock::INSTANT_LIMIT_US <= (
                #[trigger] rows@[i]).ts_bucket <= clock::INSTANT_LIMIT_US - MINUTE_US,
            samples_upto(old(self)@.points, old(self)@.base) + rows@.len() < usize::MAX,
        ensures
            final(self).well_formed(),
            final(self).settings() == old(self).settings(),
            final(self)@ == followed(
                old(self)@,
                rows@,
                old(self).settings().outputs,
                old(self).settings().limit,
                rows@.len() as int,
            ),
            are_steps(
                out@,
                old(self)@,
                rows@,
                old(self).settings(),
                rows@.len() as int,
            ),
    {
        let mut out: Vec<RvwapStep> = Vec::new();
        let ghost start = self@;
        let ghost s = self.settings();
        let n: usize = rows.len();
        let mut i: usize = 0;
        while i < n
            invariant
                i <= n,
                n == rows@.len(),
                self.well_formed(),
                self.settings() == s,
                forall|j: int|
                    0 <= j < rows@.len() ==> -clock::INSTANT_LIMIT_US <= (
                    #[trigger] rows@[j]).ts_bucket <= clock::INSTANT_LIMIT_US - MINUTE_US,
                samples_upto(self@.points, self@.base) + (n - i) < usize::MAX,
                self@ == followed(start, rows@, s.outputs, s.limit, i as int),
                are_steps(out@, start, rows@, s, i as int),
            decreases n - i,
        {
            let step: RvwapStep = self.append_minute(&rows[i]);
            out.push(step);
            i += 1;
        }
        out
    }

    /// Follows a whole history from the start.
    pub fn rebuild(&mut self, rows: &[RvwapMinute]) -> (out: Vec<RvwapStep>)
        requires
            old(self).well_formed(),
            rows@.len() < usize::MAX,
            forall|i: int|
                0 <= i < rows@.len() ==> -clock::INSTANT_LIMIT_US <= (
                #[trigger] rows@[i]).ts_bucket <= clock::INSTANT_LIMIT_US - MINUTE_US,
        ensures
            final(self).well_formed(),
            final(self).settings() == old(self).settings(),
            final(self)@ == rebuilt(rows@, old(self).settings().outputs, old(self).settings().limit),
            are_steps(
                out@,
                nothing_held(old(self).settings().outputs.len()),
                rows@,
                old(self).settings(),
                rows@.len() as int,
            ),
    {
        let rolling: Vec<i64> = copied(&self.rolling);
        let outputs: Vec<i64> = copied(&self.outputs);
        *self = RvwapState::new(rolling, outputs, self.min_samples, self.limit);
        self.append_all(rows)
    }

    /// Brings the state up to the end of a history.
    pub fn sync(&mut self, rows: &[RvwapMinute]) -> (out: RvwapSync)
        requires
            old(self).well_formed(),
            samples_upto(old(self)@.points, old(self)@.base) + rows@.len() < usize::MAX,
            rows@.len() < usize::MAX,
            forall|i: int|
                0 <= i < rows@.len() ==> -clock::INSTANT_LIMIT_US <= (
                #[trigger] rows@[i]).ts_bucket <= clock::INSTANT_LIMIT_US - MINUTE_US,
        ensures
            final(self).well_formed(),
            final(self).settings() == old(self).settings(),
            final(self)@ == synced(
                old(self)@,
                rows@,
                old(self).settings().outputs,
                old(self).settings().limit,
            ),
            tells_sync(out, old(self)@, rows@, old(self).settings()),
    {
        match plan_sync(rows, self.last_ts) {
            SyncPlan::Rebuild => RvwapSync::Rebuilt(self.rebuild(rows)),
            SyncPlan::Nothing => RvwapSync::Nothing,
            SyncPlan::From(from) => {
                let tail = vstd::slice::slice_subrange(rows, from, rows.len());
                proof {
                    assert forall|i: int|
                        0 <= i < tail@.len() implies -clock::INSTANT_LIMIT_US <= (
                    #[trigger] tail@[i]).ts_bucket <= clock::INSTANT_LIMIT_US - MINUTE_US by {
                        assert(tail@[i] == rows@[from + i]);
                    }
                }
                RvwapSync::Continued { from, steps: self.append_all(tail) }
            },
        }
    }
}

/// Whether steps say what changed with each of the first `n` rows.
pub open spec fn are_steps(
    steps: Seq<RvwapStep>,
    m: RvwapModel,
    rows: Seq<RvwapMinute>,
    s: RvwapSettings,
    n: int,
) -> bool {
    &&& steps.len() == n
    &&& forall|i: int|
        0 <= i < n ==> is_step(
            #[trigger] steps[i],
            followed(m, rows, s.outputs, s.limit, i),
            followed(m, rows, s.outputs, s.limit, i + 1),
            rows[i],
            s,
        )
}

/// Whether a report tells how a state is brought up to the end of a history, and with
/// which steps.
pub open spec fn tells_sync(
    out: RvwapSync,
    before: RvwapModel,
    rows: Seq<RvwapMinute>,
    s: RvwapSettings,
) -> bool {
    match (history::sync_plan(history::stamps(rows), before.last_ts), out) {
        (SyncPlan::Nothing, RvwapSync::Nothing) => true,
        (SyncPlan::Rebuild, RvwapSync::Rebuilt(steps)) => are_steps(
            steps@,
            nothing_held(s.outputs.len()),
            rows,
            s,
            rows.len() as int,
        ),
        (SyncPlan::From(k), RvwapSync::Continued { from, steps }) => from == k && are_steps(
            steps@,
            before,
            rows.subrange(k as int, rows.len() as int),
            s,
            rows.len() - k,
        ),
        _ => false,
    }
}

/// How a state was brought up to the end of a history.
#[derive(Clone, Debug, PartialEq, Eq)]
pub enum RvwapSync {
    /// It was there already.
    Nothing,
    /// It started over.
    Rebuilt(Vec<RvwapStep>),
    /// It went on with the rows from this place.
    Continued { from: usize, steps: Vec<RvwapStep> },
}

proof fn lemma_followed_split(
    m: RvwapModel,
    rows: Seq<RvwapMinute>,
    outputs: Seq<i64>,
    limit: int,
    k: int,
    n: int,
)
    requires
        0 <= k <= n <= rows.len(),
    ensures
        followed(m, rows, outputs, limit, n) == followed(
            followed(m, rows.take(k), outputs, limit, k),
            rows.subrange(k, rows.len() as int),
            outputs,
            limit,
            n - k,
        ),
    decreases n,
{
    if n == k {
        lemma_followed_prefix(m, rows, outputs, limit, k, k);
    } else {
        lemma_followed_split(m, rows, outputs, limit, k, n - 1);
        assert(rows.subrange(k, rows.len() as int)[n - 1 - k] == rows[n - 1]);
    }
}

proof fn lemma_followed_prefix(
    m: RvwapModel,
    rows: Seq<RvwapMinute>,
    outputs: Seq<i64>,
    limit: int,
    k: int,
    n: int,
)
    requires
        0 <= n <= k <= rows.len(),
    ensures
        followed(m, rows, outputs, limit, n) == followed(m, rows.take(k), outputs, limit, n),
    decreases n,
{
    if n > 0 {
        lemma_followed_prefix(m, rows, outputs, limit, k, n - 1);
        assert(rows.take(k)[n - 1] == rows[n - 1]);
    }
}

/// A state that followed the first `k` minutes and is then brought up to date holds what
/// a state holds that followed all minutes from the start.
pub proof fn law_sync_continues(
    rows: Seq<RvwapMinute>,
    outputs: Seq<i64>,
    limit: int,
    k: int,
)
    requires
        0 < k <= rows.len() <= usize::MAX,
        history::minutes_apart(history::stamps(rows)),
        forall|i: int|
            0 <= i < rows.len() ==> -clock::INSTANT_LIMIT_US <= (#[trigger] rows[i]).ts_bucket
                <= clock::INSTANT_LIMIT_US,
    ensures
        synced(rebuilt(rows.take(k), outputs, limit), rows, outputs, limit) == rebuilt(
            rows,
            outputs,
            limit,
        ),
{
    let ts = history::stamps(rows);
    let m = rebuilt(rows.take(k), outputs, limit);
    assert(m.last_ts == Some(ts[k - 1]));
    assert(rows[k - 1].ts_bucket <= clock::INSTANT_LIMIT_US);
    history::law_sync_goes_on(ts, k);
    lemma_followed_split(nothing_held(outputs.len()), rows, outputs, limit, k, rows.len() as int);
    if k == rows.len() {
        assert(rows.take(k) =~= rows);
    }
}

/// Whether a state holds the points of a history from place `k` on, and has counted the
/// samples before them.
pub open spec fn holds_from(m: RvwapModel, points: Seq<WeightedPoint>, k: int) -> bool {
    &&& 0 <= k <= points.len()
    &&& m.points == points.subrange(k, points.len() as int)
    &&& m.base == if k == 0 {
        0
    } else {
        points[k - 1].prefix_positive_samples as int
    }
}

/// Whether exactly the points before place `k` lie `limit` minutes or more before the
/// last one.
pub open spec fn forgets_upto(points: Seq<WeightedPoint>, limit: int, k: int) -> bool {
    &&& forall|i: int|
        0 <= i < k ==> (#[trigger] points[i]).ts_bucket <= points.last().ts_bucket - limit
            * MINUTE_US
    &&& forall|i: int|
        k <= i < points.len() ==> (#[trigger] points[i]).ts_bucket > points.last().ts_bucket
            - limit * MINUTE_US
}

/// A state that followed minutes in order holds the points of their series from some
/// place on: exactly those that do not lie `limit` minutes or more before the last one.
#[verifier::rlimit(50)]
#[verifier::spinoff_prover]
pub proof fn law_state_holds_series_end(
    rows: Seq<RvwapMinute>,
    outputs: Seq<i64>,
    limit: int,
    n: int,
) -> (k: int)
    requires
        0 <= n <= rows.len(),
        rows.len() < usize::MAX,
        history::in_order(history::stamps(rows)),
        limit > 0,
    ensures
        holds_from(
            followed(nothing_held(outputs.len()), rows, outputs, limit, n),
            points_of(rows, n),
            k,
        ),
        forgets_upto(points_of(rows, n), limit, k),
        history::in_order(history::stamps(points_of(rows, n))),
        points_of(rows, n).len() > 0 ==> k < points_of(rows, n).len(),
        forall|i: int|
            0 <= i < points_of(rows, n).len() && n > 0 ==> (#[trigger] points_of(
                rows,
                n,
            )[i]).ts_bucket <= rows[n - 1].ts_bucket,
    decreases n,
{
    let ts = history::stamps(rows);
    if n == 0 {
        assert(points_of(rows, n).subrange(0, 0) =~= Seq::<WeightedPoint>::empty());
        0
    } else {
        let j = law_state_holds_series_end(rows, outputs, limit, n - 1);
        let old_points = points_of(rows, n - 1);
        let points = points_of(rows, n);
        let m = followed(nothing_held(outputs.len()), rows, outputs, limit, n - 1);
        let row = rows[n - 1];
        lemma_points_of(rows, n - 1);
        assert forall|i: int| 0 <= i < old_points.len() implies (
        #[trigger] old_points[i]).ts_bucket <= row.ts_bucket by {
            if n - 1 > 0 {
                assert(ts[n - 2] <= ts[n - 1]);
            }
        }
        if !has_typical_price(row) {
            j
        } else {
            let point = points.last();
            let all = m.points.push(point);
            assert(samples_upto(m.points, m.base) == samples_upto(old_points, 0));
            assert(all =~= points.subrange(j, points.len() as int));
            let cutoff = row.ts_bucket - limit * MINUTE_US;
            let gone = point_upto(cutoff);
            let d = history::lemma_drop_while(all, gone);
            let k = j + d;
            let now = taken(m, row, outputs, limit);
            assert(now.points =~= points.subrange(k, points.len() as int));
            let kept = history::drop_while(all, gone);
            assert(kept.len() == all.len() - d);
            if d > 0 {
                assert(all[d - 1] == points[k - 1]);
            }
            assert(history::in_order(history::stamps(points))) by {
                let st = history::stamps(points);
                let old_st = history::stamps(old_points);
                assert forall|a: int, b: int| 0 <= a <= b < st.len() implies st[a] <= st[b] by {
                    if b < old_points.len() {
                        assert(old_st[a] <= old_st[b]);
                        assert(points[a] == old_points[a] && points[b] == old_points[b]);
                    } else if a < old_points.len() {
                        assert(points[a] == old_points[a]);
                    }
                }
            }
            assert(limit * MINUTE_US > 0) by (nonlinear_arith)
                requires
                    limit > 0,
            ;
            assert(k < points.len()) by {
                if d == all.len() {
                    assert(gone(all[all.len() - 1]));
                }
            }
            assert forall|i: int| 0 <= i < k implies (#[trigger] points[i]).ts_bucket
                <= cutoff by {
                if i < j {
                    assert(points[i] == old_points[i]);
                    assert(old_points[i].ts_bucket <= old_points.last().ts_bucket - limit
                        * MINUTE_US);
                    assert(old_points.last().ts_bucket <= row.ts_bucket);
                } else {
                    assert(all[i - j] == points[i]);
                    assert(gone(all[i - j]));
                }
            }
            assert forall|i: int| k <= i < points.len() implies (#[trigger] points[i]).ts_bucket
                > cutoff by {
                assert(all[d] == points[k]);
                assert(!gone(all[d]));
                let st = history::stamps(points);
                assert(st[k] <= st[i]);
            }
            k
        }
    }
}

/// Whether what a state averages over at its last point is what a series averages over
/// there: the same points, as many samples.
pub open spec fn averages_as_series(
    m: RvwapModel,
    points: Seq<WeightedPoint>,
    window_minutes: i64,
    min_samples: usize,
) -> bool {
    let direct = stats_window(points, 0, points.len() - 1, window_minutes, min_samples);
    let held = stats_window(m.points, m.base, m.points.len() - 1, window_minutes, min_samples);
    let ahead = points.len() - m.points.len();
    match (direct, held) {
        (None, None) => true,
        (Some(d), Some(h)) => d.sample_count == h.sample_count && d.start_idx == h.start_idx
            + ahead && d.end_idx == h.end_idx + ahead && m.points == points.subrange(
            ahead,
            points.len() as int,
        ),
        _ => false,
    }
}

/// The ends of the minutes of some points, by their places.
pub open spec fn ends_of(points: Seq<WeightedPoint>, places: Seq<usize>) -> Seq<i64> {
    places.map_values(|i: usize| (points[i as int].ts_bucket + MINUTE_US) as i64)
}

/// Over minutes in order that reach less far back than the state remembers, a running
/// state reports in each output window where the series built in one go is reported.
pub proof fn law_state_reports_with_series(
    rows: Seq<RvwapMinute>,
    outputs: Seq<i64>,
    limit: int,
    w: int,
    n: int,
)
    requires
        0 <= n <= rows.len() < usize::MAX,
        0 <= w < outputs.len(),
        history::in_order(history::stamps(rows)),
        forall|i: int|
            0 <= i < rows.len() ==> -clock::INSTANT_LIMIT_US <= (#[trigger] rows[i]).ts_bucket
                <= clock::INSTANT_LIMIT_US - MINUTE_US,
        n > 0 ==> rows[n - 1].ts_bucket - rows[0].ts_bucket < limit * MINUTE_US,
    ensures
        ({
            let m = followed(nothing_held(outputs.len()), rows, outputs, limit, n);
            let points = points_of(rows, n);
            &&& m.series.len() == outputs.len()
            &&& m.series[w] == ends_of(points, output_points(points, outputs[w], points.len() as int))
            &&& forall|i: int|
                0 <= i < m.series[w].len() ==> rows[0].ts_bucket + MINUTE_US <= (
                #[trigger] m.series[w][i])
        }),
    decreases n,
{
    let ts = history::stamps(rows);
    let out = outputs[w];
    let points = points_of(rows, n);
    if n > 0 {
        assert(ts[0] <= ts[n - 1]);
        if n > 1 {
            assert(ts[n - 2] <= ts[n - 1]);
        }
        law_state_reports_with_series(rows, outputs, limit, w, n - 1);
        let m = followed(nothing_held(outputs.len()), rows, outputs, limit, n - 1);
        let rest = points_of(rows, n - 1);
        lemma_points_of(rows, n - 1);
        let row = rows[n - 1];
        if has_typical_price(row) {
            let hi = rest.len() as int;
            assert(points.len() == hi + 1 && points.drop_last() =~= rest);
            lemma_output_points_of_part(points, rest, out, hi);
            assert(ends_of(points, output_points(points, out, hi)) =~= ends_of(
                rest,
                output_points(rest, out, hi),
            ));
            let anchor = (row.ts_bucket + MINUTE_US) as i64;
            assert(-clock::INSTANT_LIMIT_US <= row.ts_bucket <= clock::INSTANT_LIMIT_US
                - MINUTE_US);
            let before = m.series[w];
            if avwap::is_anchor(anchor as int, out as int) {
                let all = before.push(anchor);
                let gone = rolling::is_upto(anchor - limit * MINUTE_US);
                assert(!gone(all[0])) by {
                    if before.len() > 0 {
                        assert(all[0] == before[0]);
                    }
                }
                history::lemma_drop_while_none(all, gone);
                let places = output_points(points, out, hi);
                assert(ends_of(points, places.push(hi as usize)) =~= ends_of(points, places).push(
                    anchor,
                ));
            }
        }
    } else {
        assert(ends_of(points, output_points(points, out, points.len() as int)) =~= Seq::<
            i64,
        >::empty());
    }
}

proof fn lemma_output_points_of_part(
    points: Seq<WeightedPoint>,
    rest: Seq<WeightedPoint>,
    out: i64,
    hi: int,
)
    requires
        0 <= hi <= rest.len() <= points.len() <= usize::MAX,
        forall|i: int| 0 <= i < rest.len() ==> #[trigger] points[i] == rest[i],
    ensures
        output_points(points, out, hi) == output_points(rest, out, hi),
        forall|i: int|
            0 <= i < output_points(rest, out, hi).len() ==> (#[trigger] output_points(
                rest,
                out,
                hi,
            )[i]) < hi,
    decreases hi,
{
    if hi > 0 {
        assert(points[hi - 1] == rest[hi - 1]);
        lemma_output_points_of_part(points, rest, out, hi - 1);
    }
}

/// Over minutes in order, what a running state averages over at its last point is what
/// the whole series averages over there: the same points, as many samples. Windows are
/// no longer than what the state remembers.
#[verifier::rlimit(50)]
#[verifier::spinoff_prover]
pub proof fn law_state_matches_series(
    rows: Seq<RvwapMinute>,
    outputs: Seq<i64>,
    limit: int,
    window_minutes: i64,
    min_samples: usize,
)
    requires
        0 < rows.len() < usize::MAX,
        history::in_order(history::stamps(rows)),
        1 <= window_minutes <= limit <= clock::WINDOW_LIMIT_MINUTES,
        forall|i: int|
            0 <= i < rows.len() ==> clock::is_instant((#[trigger] rows[i]).ts_bucket),
    ensures
        averages_as_series(
            rebuilt(rows, outputs, limit),
            points_of(rows, rows.len() as int),
            window_minutes,
            min_samples,
        ),
{
    let n = rows.len() as int;
    let k = law_state_holds_series_end(rows, outputs, limit, n);
    lemma_points_of(rows, n);
    let points = points_of(rows, n);
    let m = rebuilt(rows, outputs, limit);
    if points.len() > 0 {
        let st = history::stamps(points);
        let st2 = history::stamps(m.points);
        let last = points.last().ts_bucket;
        lemma_point_stamps(rows, n);
        assert(clock::is_instant(points[points.len() - 1].ts_bucket));
        let target = (last - avwap::at_least_one(window_minutes) * MINUTE_US + MINUTE_US) as i64;
        assert(target == last - window_minutes * MINUTE_US + MINUTE_US);
        history::lemma_first_at_or_after(st, target);
        let a = history::first_at_or_after(st, target);
        assert(window_minutes * MINUTE_US <= limit * MINUTE_US) by (nonlinear_arith)
            requires
                window_minutes <= limit,
        ;
        assert(a >= k) by {
            if a < k {
                assert(points[a].ts_bucket <= last - limit * MINUTE_US);
                assert(st[a] < target);
            }
        }
        assert(a <= points.len() - 1) by {
            assert(st[points.len() - 1] >= target) by {
                assert(MINUTE_US <= window_minutes * MINUTE_US) by (nonlinear_arith)
                    requires
                        window_minutes >= 1,
                ;
            }
        }
        assert forall|i: int| 0 <= i < m.points.len() implies #[trigger] st2[i] == st[k + i] by {
            assert(m.points[i] == points[k + i]);
        }
        assert(history::in_order(st2)) by {
            assert forall|x: int, y: int| 0 <= x <= y < st2.len() implies st2[x] <= st2[y] by {
                assert(st[k + x] <= st[k + y]);
            }
        }
        history::lemma_first_at_or_after_is(st2, target, a - k);
        assert(m.points.last() == points.last());
        if a > k {
            assert(m.points[a - k - 1] == points[a - 1]);
        }
        assert(m.points.len() == points.len() - k);
        assert(m.points[m.points.len() - 1] == points[points.len() - 1]);
        if a > 0 {
            assert(points[a - 1].prefix_positive_samples <= points[points.len()
                - 1].prefix_positive_samples);
        }
    }
}

proof fn lemma_point_stamps(rows: Seq<RvwapMinute>, hi: int)
    requires
        0 <= hi <= rows.len(),
        forall|i: int|
            0 <= i < rows.len() ==> clock::is_instant((#[trigger] rows[i]).ts_bucket),
    ensures
        forall|i: int|
            0 <= i < points_of(rows, hi).len() ==> clock::is_instant(
                (#[trigger] points_of(rows, hi)[i]).ts_bucket,
            ),
    decreases hi,
{
    if hi > 0 {
        lemma_point_stamps(rows, hi - 1);
        let rest = points_of(rows, hi - 1);
        let all = points_of(rows, hi);
        assert forall|i: int| 0 <= i < all.len() implies clock::is_instant(
            (#[trigger] all[i]).ts_bucket,
        ) by {
            if i < rest.len() {
                assert(all[i] == rest[i]);
            } else {
                assert(clock::is_instant(rows[hi - 1].ts_bucket));
            }
        }
    }
}

/// Windows are known by five names, each as long as its name says.
pub proof fn law_windows_are_named(code: Seq<char>)
    ensures
        minutes_of(code) is Some <==> code == "15m"@ || code == "1h"@ || code == "4h"@ || code
            == "1d"@ || code == "3d"@,
        minutes_of(code) matches Some(minutes) ==> clock::named_minutes(code) == minutes,
{
    clock::lemma_named_minutes();
}

/// Whether a minute has all prices that a typical price is made of.
pub open spec fn is_priced(row: RvwapMinute) -> bool {
    &&& row.high is Some
    &&& row.low is Some
    &&& row.close is Some
}

/// How many of the first minutes are priced.
pub open spec fn priced(rows: Seq<RvwapMinute>, n: int) -> int
    decreases n,
{
    if n <= 0 {
        0
    } else if is_priced(rows[n - 1]) {
        priced(rows, n - 1) + 1
    } else {
        priced(rows, n - 1)
    }
}

/// How many of the first minutes are priced and have volume.
pub open spec fn traded(rows: Seq<RvwapMinute>, n: int) -> int
    decreases n,
{
    if n <= 0 {
        0
    } else if is_priced(rows[n - 1]) && rows[n - 1].total_qty > 0 {
        traded(rows, n - 1) + 1
    } else {
        traded(rows, n - 1)
    }
}

/// Every priced minute has its point, in order, which counts the minutes with volume up to it;
/// there are no other points.
pub proof fn law_points(rows: Seq<RvwapMinute>, hi: int, i: int)
    requires
        0 <= i < hi <= rows.len() <= usize::MAX,
    ensures
        points_of(rows, hi).len() == priced(rows, hi),
        is_priced(rows[i]) ==> {
            let p = priced(rows, i);
            &&& 0 <= p < points_of(rows, hi).len()
            &&& points_of(rows, hi)[p].ts_bucket == rows[i].ts_bucket
            &&& points_of(rows, hi)[p].prefix_positive_samples == traded(rows, i + 1)
        },
{
    lemma_points(rows, hi);
    if is_priced(rows[i]) {
        lemma_point_stays(rows, hi, i);
        lemma_points(rows, i);
        lemma_points(rows, i + 1);
    }
}

proof fn lemma_points(rows: Seq<RvwapMinute>, hi: int)
    requires
        0 <= hi <= rows.len() <= usize::MAX,
    ensures
        points_of(rows, hi).len() == priced(rows, hi),
        samples_upto(points_of(rows, hi), 0) == traded(rows, hi),
        0 <= traded(rows, hi) <= priced(rows, hi) <= hi,
    decreases hi,
{
    if hi > 0 {
        lemma_points(rows, hi - 1);
    }
}

proof fn lemma_point_stays(rows: Seq<RvwapMinute>, hi: int, i: int)
    requires
        0 <= i < hi <= rows.len() <= usize::MAX,
        is_priced(rows[i]),
    ensures
        points_of(rows, i).len() < points_of(rows, hi).len(),
        points_of(rows, hi)[points_of(rows, i).len() as int] == points_of(rows, i + 1).last(),
        points_of(rows, i + 1).last().ts_bucket == rows[i].ts_bucket,
    decreases hi,
{
    if i < hi - 1 {
        lemma_point_stays(rows, hi - 1, i);
    }
}

/// A window that ends at a point takes in the points of its minutes up to that one, of points
/// in order. It is there exactly where enough of them have volume, and counts those.
pub proof fn law_stats_window(
    points: Seq<WeightedPoint>,
    base: int,
    end_idx: int,
    window_minutes: i64,
    min_samples: usize,
    j: int,
)
    requires
        0 <= j < points.len() <= usize::MAX,
        0 <= end_idx < points.len(),
        history::in_order(history::stamps(points)),
        counts_rise(points),
        0 <= base <= points[0].prefix_positive_samples,
        0 < window_minutes <= clock::WINDOW_LIMIT_MINUTES,
        clock::is_instant(points[end_idx].ts_bucket),
    ensures
        ({
            let after = points[end_idx].ts_bucket - window_minutes * 60_000_000;
            let out = stats_window(points, base, end_idx, window_minutes, min_samples);
            &&& out matches Some(w) ==> {
                &&& w.end_idx == end_idx
                &&& w.start_idx <= j <==> points[j].ts_bucket >= after + 60_000_000
                &&& w.start_idx <= w.end_idx
                &&& w.sample_count >= min_samples
                &&& w.sample_count == points[end_idx].prefix_positive_samples - (if w.start_idx
                    == 0 {
                    base
                } else {
                    points[w.start_idx - 1].prefix_positive_samples as int
                })
            }
            &&& out is None && (forall|k: int|
                0 <= k < points.len() ==> (#[trigger] points[k]).ts_bucket >= after + 60_000_000)
                ==> points[end_idx].prefix_positive_samples - base < min_samples
            &&& out is None && 0 < j <= end_idx && points[j].ts_bucket >= after + 60_000_000
                && points[j - 1].ts_bucket < after + 60_000_000
                ==> points[end_idx].prefix_positive_samples - points[j - 1].prefix_positive_samples
                < min_samples
        }),
{
    let ts = history::stamps(points);
    assert(MINUTE_US <= window_minutes * MINUTE_US <= clock::WINDOW_LIMIT_MINUTES * MINUTE_US)
        by (nonlinear_arith)
        requires
            0 < window_minutes <= clock::WINDOW_LIMIT_MINUTES,
    ;
    let from = (points[end_idx].ts_bucket - window_minutes * MINUTE_US + MINUTE_US) as i64;
    history::lemma_first_at_or_after(ts, from);
    let start = history::first_at_or_after(ts, from);
    assert(ts[j] < from <==> j < start);
    assert(ts[end_idx] < from <==> end_idx < start);
    if j > 0 {
        assert(ts[j - 1] < from <==> j - 1 < start);
    }
    if start > 0 {
        assert(points[start - 1].prefix_positive_samples <= points[end_idx].prefix_positive_samples);
        assert(ts[start - 1] < from);
    }
    assert(points[0].prefix_positive_samples <= points[end_idx].prefix_positive_samples);
}

/// The points that a series reports are those whose minute ends where a bar starts.
pub proof fn law_output_points(points: Seq<WeightedPoint>, out_minutes: i64, hi: int, i: int)
    requires
        0 <= hi <= points.len() <= usize::MAX,
        0 <= i < points.len(),
        out_minutes > 0,
        points[i].ts_bucket as int % 1_000_000 == 0,
    ensures
        output_points(points, out_minutes, hi).contains(i as usize) <==> i < hi && (
        points[i].ts_bucket + 60_000_000) % (out_minutes * 60_000_000) == 0,
    decreases hi,
{
    let out = output_points(points, out_minutes, hi);
    if hi > 0 {
        law_output_points(points, out_minutes, hi - 1, i);
        let rest = output_points(points, out_minutes, hi - 1);
        avwap::law_anchors(points[i].ts_bucket + 60_000_000, out_minutes as int);
        if rest.contains(i as usize) {
            let a = choose|a: int| 0 <= a < rest.len() && rest[a] == i as usize;
            assert(out[a] == i as usize);
        }
        if out.contains(i as usize) {
            let a = choose|a: int| 0 <= a < out.len() && out[a] == i as usize;
            if a < rest.len() {
                assert(rest[a] == i as usize);
            }
        }
        if i == hi - 1 && out.len() > rest.len() {
            assert(out[out.len() - 1] == i as usize);
        }
    }
}

/// The windows reported are those asked for by a known name, each as long as its name says,
/// and each ends at the last point.
pub proof fn law_reported_windows(
    points: Seq<WeightedPoint>,
    window_codes: Seq<String>,
    min_samples: usize,
    hi: int,
    i: int,
)
    requires
        0 <= i < hi <= window_codes.len() <= usize::MAX,
        points.len() > 0,
    ensures
        ({
            let out = reported_windows(points, window_codes, min_samples, hi);
            &&& minutes_of(window_codes[i]@) is Some <==> exists|p: int|
                0 <= p < out.len() && (#[trigger] out[p]).0 == i
            &&& forall|p: int|
                0 <= p < out.len() && (#[trigger] out[p]).0 == i ==> out[p].1
                    == clock::named_minutes(window_codes[i]@) && out[p].2 == stats_window(
                    points,
                    0,
                    points.len() - 1,
                    out[p].1,
                    min_samples,
                )
            &&& forall|p: int| 0 <= p < out.len() ==> (#[trigger] out[p]).0 < hi
        }),
    decreases hi,
{
    let out = reported_windows(points, window_codes, min_samples, hi);
    law_windows_are_named(window_codes[hi - 1]@);
    lemma_reported_before(points, window_codes, min_samples, hi - 1);
    let rest = reported_windows(points, window_codes, min_samples, hi - 1);
    if i < hi - 1 {
        law_reported_windows(points, window_codes, min_samples, hi - 1, i);
        if exists|p: int| 0 <= p < rest.len() && (#[trigger] rest[p]).0 == i {
            let p = choose|p: int| 0 <= p < rest.len() && (#[trigger] rest[p]).0 == i;
            assert(out[p].0 == i);
        }
        assert forall|p: int| 0 <= p < out.len() && (#[trigger] out[p]).0 == i implies p
            < rest.len() && out[p] == rest[p] by {}
    } else {
        assert forall|p: int| 0 <= p < rest.len() implies (#[trigger] out[p]).0 < i by {
            assert(out[p] == rest[p]);
        }
        if minutes_of(window_codes[i]@) is Some {
            assert(out[out.len() - 1].0 == i);
        }
    }
    assert forall|p: int| 0 <= p < out.len() implies (#[trigger] out[p]).0 < hi by {
        if p < rest.len() {
            assert(out[p] == rest[p]);
        }
    }
}

proof fn lemma_reported_before(
    points: Seq<WeightedPoint>,
    window_codes: Seq<String>,
    min_samples: usize,
    hi: int,
)
    requires
        0 <= hi <= window_codes.len() <= usize::MAX,
        points.len() > 0,
    ensures
        forall|p: int|
            0 <= p < reported_windows(points, window_codes, min_samples, hi).len() ==> (
            #[trigger] reported_windows(points, window_codes, min_samples, hi)[p]).0 < hi,
    decreases hi,
{
    if hi > 0 {
        lemma_reported_before(points, window_codes, min_samples, hi - 1);
        let rest = reported_windows(points, window_codes, min_samples, hi - 1);
        let out = reported_windows(points, window_codes, min_samples, hi);
        assert forall|p: int| 0 <= p < out.len() implies (#[trigger] out[p]).0 < hi by {
            if p < rest.len() {
                assert(out[p] == rest[p]);
            }
        }
    }
}

/// A priced minute that comes in is held with those of the limit before it, and reported in
/// each series at whose bar's start it ends; one that is not priced leaves everything but the
/// last instant as it was.
pub proof fn law_taken(
    m: RvwapModel,
    row: RvwapMinute,
    outputs: Seq<i64>,
    limit: int,
    w: int,
    t: i64,
)
    requires
        history::in_order(history::stamps(m.points).push(row.ts_bucket)),
        0 <= samples_upto(m.points, m.base) < usize::MAX,
        0 <= w < m.series.len(),
        m.series.len() == outputs.len(),
        row.ts_bucket <= i64::MAX - 60_000_000,
        history::in_order(m.series[w].push((row.ts_bucket + 60_000_000) as i64)),
        limit >= 0,
        row.ts_bucket as int % 1_000_000 == 0,
        outputs[w] > 0,
    ensures
        ({
            let after = taken(m, row, outputs, limit);
            let after_ts = history::stamps(after.points);
            let end = row.ts_bucket + 60_000_000;
            let starts = end % (outputs[w] * 60_000_000) == 0;
            &&& after.last_ts == Some(row.ts_bucket)
            &&& !is_priced(row) ==> after.points == m.points && after.series == m.series
            &&& is_priced(row) ==> (after_ts.contains(t) <==> (history::stamps(m.points).contains(t)
                || t == row.ts_bucket) && t > row.ts_bucket - limit * 60_000_000)
            &&& is_priced(row) && !starts ==> after.series[w] == m.series[w]
            &&& is_priced(row) && starts ==> (after.series[w].contains(t) <==> (
            m.series[w].contains(t) || t == end) && t > end - limit * 60_000_000)
            &&& is_priced(row) && after.points.len() > 0
                ==> after.points.last().prefix_positive_samples == samples_upto(m.points, m.base)
                + (if row.total_qty > 0 {
                1int
            } else {
                0
            })
        }),
{
    if is_priced(row) {
        let point = WeightedPoint {
            ts_bucket: row.ts_bucket,
            prefix_positive_samples: (samples_upto(m.points, m.base) + sample_of(row)) as usize,
        };
        let all = m.points.push(point);
        let from = row.ts_bucket - limit * MINUTE_US;
        let k = history::lemma_drop_while(all, point_upto(from));
        let kept = history::drop_while(all, point_upto(from));
        let held = history::stamps(m.points).push(row.ts_bucket);
        let kept_ts = history::stamps(kept);
        if kept_ts.contains(t) {
            let a = choose|a: int| 0 <= a < kept_ts.len() && kept_ts[a] == t;
            assert(kept[a] == all[k + a]);
            assert(held[k] <= held[k + a]);
            if k + a < m.points.len() {
                assert(history::stamps(m.points)[k + a] == t);
            }
        }
        if (history::stamps(m.points).contains(t) || t == row.ts_bucket) && t > from {
            let a = if history::stamps(m.points).contains(t) {
                choose|a: int|
                    0 <= a < m.points.len() && history::stamps(m.points)[a] == t
            } else {
                m.points.len() as int
            };
            assert(all[a].ts_bucket == t);
            assert(a >= k) by {
                if a < k {
                    assert(point_upto(from)(all[a]));
                }
            }
            assert(kept[a - k] == all[a]);
            assert(kept_ts[a - k] == t);
        }
        avwap::law_anchors(row.ts_bucket + 60_000_000, outputs[w] as int);
        let anchor = (row.ts_bucket + MINUTE_US) as i64;
        rolling::law_rolled(m.series[w], anchor, anchor - limit * MINUTE_US, t);
        if kept.len() > 0 {
            assert(kept.last() == all[all.len() - 1]);
        }
    }
}

/// A step tells whether a minute was priced and in which series it is reported: those at whose
/// bar's start it ends.
pub proof fn law_step(
    step: RvwapStep,
    before: RvwapModel,
    after: RvwapModel,
    row: RvwapMinute,
    s: RvwapSettings,
    w: int,
)
    requires
        is_step(step, before, after, row, s),
        0 <= w < s.outputs.len(),
        s.outputs[w] > 0,
        row.ts_bucket as int % 1_000_000 == 0,
    ensures
        step.appended <==> is_priced(row),
        step.reported@[w] <==> is_priced(row) && (row.ts_bucket + 60_000_000) % (s.outputs[w]
            * 60_000_000) == 0,
        step.appended ==> step.stats@.len() == s.rolling.len() && before.points.len() + 1
            == step.dropped + after.points.len(),
        !step.appended ==> step.stats@.len() == 0 && before.points.len() == step.dropped
            + after.points.len(),
        step.reported@[w] ==> before.series[w].len() + 1 == step.forgotten@[w]
            + after.series[w].len(),
        !step.reported@[w] ==> before.series[w].len() == step.forgotten@[w] + after.series[w].len(),
{
    avwap::law_anchors(row.ts_bucket + 60_000_000, s.outputs[w] as int);
    let reported = step.reported@[w];
    let forgotten = step.forgotten@[w];
}

} // verus!
