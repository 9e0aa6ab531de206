//! How the market is positioned: open interest, long and short ratios, and the surface of
//! option volatility, each over windows of five-minute samples.

use crate::clock;
use crate::grouping;
use crate::grouping::{gather, Group};
use crate::history;
use crate::history::lower_bound;
use crate::order;
use crate::order::Key;
use vstd::prelude::*;

verus! {

/// How many of the newest changes a change is compared with at most.
pub const ZSCORE_LOOKBACK: usize = 60;

/// The order key of 1e-9, up to which a number counts as zero.
pub const KEY_EPS: i64 = 0x3E11_2E0B_E826_D695;

/// The order key of 1.02, above which a ratio leans to the long side.
pub const KEY_LONG_LEAN: i64 = 0x3FF0_51EB_851E_B852;

/// The order key of 0.98, below which a ratio leans to the short side.
pub const KEY_SHORT_LEAN: i64 = 0x3FEF_5C28_F5C2_8F5C;

/// The order key of 0.02, from which on two volatilities are apart.
pub const KEY_IV_APART: i64 = 0x3F94_7AE1_47AE_147B;

/// The windows: name, minutes, samples.
pub open spec fn spec_windows() -> Seq<(Seq<char>, i64, usize)> {
    seq![
        ("5m"@, 5i64, 1usize),
        ("15m"@, 15i64, 3usize),
        ("4h"@, 240i64, 48usize),
        ("1d"@, 1440i64, 288usize),
        ("3d"@, 4320i64, 864usize),
    ]
}

/// The windows: name, minutes, samples.
pub fn sample_windows() -> (out: [(&'static str, i64, usize); 5])
    ensures
        forall|i: int|
            0 <= i < 5 ==> (#[trigger] out@[i]).0@ == spec_windows()[i].0 && out@[i].1
                == spec_windows()[i].1 && out@[i].2 == spec_windows()[i].2,
{
    [("5m", 5, 1), ("15m", 15, 3), ("4h", 240, 48), ("1d", 1440, 288), ("3d", 4320, 864)]
}

/// The windows that get a row of their own: all but the shortest, which the indicator as a
/// whole is reported under.
pub open spec fn own_rows() -> Seq<usize> {
    seq![1usize, 2usize, 3usize, 4usize]
}

fn rows_of_windows() -> (out: Vec<usize>)
    ensures
        out@ == own_rows(),
{
    let out: Vec<usize> = vec![1, 2, 3, 4];
    assert(out@ =~= own_rows());
    out
}

/// Exactly the windows that get a row of their own are not named like the shortest.
pub proof fn law_own_rows_are_the_other_windows(w: int)
    requires
        0 <= w < 5,
    ensures
        own_rows().contains(w as usize) == (spec_windows()[w].0 != spec_windows()[0].0),
{
    reveal_strlit("5m");
    reveal_strlit("15m");
    reveal_strlit("4h");
    reveal_strlit("1d");
    reveal_strlit("3d");
    let own = own_rows();
    if w > 0 {
        assert(own[w - 1] == w);
        assert("5m"@[0] == '5');
        assert(spec_windows()[w].0[0] != '5');
    } else {
        assert forall|i: int| 0 <= i < own.len() implies #[trigger] own[i] != 0 by {}
    }
}

/// Whether a number counts as zero.
pub open spec fn is_flat(key: Key) -> bool {
    -KEY_EPS <= key <= KEY_EPS
}

fn flat(key: Key) -> (out: bool)
    ensures
        out == is_flat(key),
{
    -KEY_EPS <= key && key <= KEY_EPS
}

/// The ends of a window of samples: the newest sample and the one `sample_count` before
/// it; none where there are not enough.
pub open spec fn endpoints(n: int, sample_count: usize) -> Option<(int, int)> {
    if sample_count == 0 || n <= sample_count {
        None
    } else {
        Some((n - 1 - sample_count, n - 1))
    }
}

/// The ends of a window of samples.
pub fn interval_endpoints(n: usize, sample_count: usize) -> (out: Option<(usize, usize)>)
    ensures
        match out {
            None => endpoints(n as int, sample_count) is None,
            Some((a, b)) => endpoints(n as int, sample_count) == Some((a as int, b as int)),
        },
{
    if sample_count == 0 || n <= sample_count {
        None
    } else {
        Some((n - 1 - sample_count, n - 1))
    }
}

/// A sample of the open interest.
#[derive(Clone, Copy, Debug, PartialEq, Eq)]
pub struct OpenInterestPoint {
    pub value: Key,
    pub reference_price: Option<Key>,
}

/// How price and open interest moved together.
#[derive(Clone, Copy, Debug, PartialEq, Eq)]
pub enum PriceOiRelation {
    LeveragedLongBuild,
    FreshShortBuild,
    LongUnwind,
    ShortCover,
    Neutral,
}

impl PriceOiRelation {
    /// The name of the relation.
    pub open spec fn spec_name(self) -> Seq<char> {
        match self {
            PriceOiRelation::LeveragedLongBuild => "leveraged_long_build"@,
            PriceOiRelation::FreshShortBuild => "fresh_short_build"@,
            PriceOiRelation::LongUnwind => "long_unwind"@,
            PriceOiRelation::ShortCover => "short_cover"@,
            PriceOiRelation::Neutral => "neutral"@,
        }
    }

    /// The name of the relation.
    pub fn name(self) -> (out: &'static str)
        ensures
            out@ == self.spec_name(),
    {
        match self {
            PriceOiRelation::LeveragedLongBuild => "leveraged_long_build",
            PriceOiRelation::FreshShortBuild => "fresh_short_build",
            PriceOiRelation::LongUnwind => "long_unwind",
            PriceOiRelation::ShortCover => "short_cover",
            PriceOiRelation::Neutral => "neutral",
        }
    }
}

/// A change, or no change where none is known.
pub open spec fn change_or_none(change: Option<Key>) -> Key {
    match change {
        Some(key) => key,
        None => 0,
    }
}

/// How price and open interest moved together: both up, price down and interest up, both
/// down, price up and interest down, or else neither.
pub open spec fn relation(price: Option<Key>, oi: Option<Key>) -> PriceOiRelation {
    let p = change_or_none(price);
    let o = change_or_none(oi);
    if p > KEY_EPS && o > KEY_EPS {
        PriceOiRelation::LeveragedLongBuild
    } else if p < -KEY_EPS && o > KEY_EPS {
        PriceOiRelation::FreshShortBuild
    } else if p < -KEY_EPS && o < -KEY_EPS {
        PriceOiRelation::LongUnwind
    } else if p > KEY_EPS && o < -KEY_EPS {
        PriceOiRelation::ShortCover
    } else {
        PriceOiRelation::Neutral
    }
}

/// How price and open interest moved together.
pub fn classify_price_oi_relation(price_delta_pct: Option<Key>, oi_delta_pct: Option<Key>) -> (out:
    PriceOiRelation)
    ensures
        out == relation(price_delta_pct, oi_delta_pct),
{
    let p: Key = match price_delta_pct {
        Some(key) => key,
        None => 0,
    };
    let o: Key = match oi_delta_pct {
        Some(key) => key,
        None => 0,
    };
    if p > KEY_EPS && o > KEY_EPS {
        PriceOiRelation::LeveragedLongBuild
    } else if p < -KEY_EPS && o > KEY_EPS {
        PriceOiRelation::FreshShortBuild
    } else if p < -KEY_EPS && o < -KEY_EPS {
        PriceOiRelation::LongUnwind
    } else if p > KEY_EPS && o < -KEY_EPS {
        PriceOiRelation::ShortCover
    } else {
        PriceOiRelation::Neutral
    }
}

/// The places from `sample_count` up to `hi` whose change over the window is known: their
/// samples `sample_count` earlier are not zero.
pub open spec fn known_changes(
    values: Seq<OpenInterestPoint>,
    sample_count: usize,
    hi: int,
) -> Seq<usize>
    decreases hi,
{
    if hi <= sample_count {
        Seq::empty()
    } else if is_flat(values[hi - 1 - sample_count].value) {
        known_changes(values, sample_count, hi - 1)
    } else {
        known_changes(values, sample_count, hi - 1).push((hi - 1) as usize)
    }
}

/// The last entries of a list, `n` at most.
pub open spec fn last_entries(all: Seq<usize>, n: int) -> Seq<usize> {
    all.subrange(
        if all.len() <= n {
            0
        } else {
            all.len() - n
        },
        all.len() as int,
    )
}

/// The places that the newest change of the open interest is compared with; none where
/// fewer than three changes are known.
pub fn compared_changes(series: &[OpenInterestPoint], sample_count: usize) -> (out: Option<
    Vec<usize>,
>)
    ensures
        ({
            let all = known_changes(series@, sample_count, series@.len() as int);
            match out {
                None => all.len() < 3,
                Some(places) => all.len() >= 3 && places@ == last_entries(all, ZSCORE_LOOKBACK as int),
            }
        }),
{
    let n: usize = series.len();
    let mut all: Vec<usize> = Vec::new();
    let mut i: usize = sample_count;
    while i < n
        invariant
            n == series@.len(),
            sample_count <= i,
            i <= n || i == sample_count,
            all@ == known_changes(series@, sample_count, i as int),
        decreases n - i,
    {
        if !flat(series[i - sample_count].value) {
            all.push(i);
        }
        i += 1;
    }
    proof {
        if sample_count > n {
            assert(known_changes(series@, sample_count, n as int) =~= all@);
        }
    }
    if all.len() < 3 {
        return None;
    }
    if all.len() > ZSCORE_LOOKBACK {
        let skip: usize = all.len() - ZSCORE_LOOKBACK;
        let ghost whole = all@;
        let tail: Vec<usize> = all.split_off(skip);
        assert(tail@ =~= last_entries(whole, ZSCORE_LOOKBACK as int));
        Some(tail)
    } else {
        assert(all@ =~= last_entries(all@, ZSCORE_LOOKBACK as int));
        Some(all)
    }
}

/// What is measured of a window of the open interest.
#[derive(Clone, Copy, Debug, PartialEq, Eq)]
pub struct OpenInterestMeasure {
    pub delta_abs: Key,
    pub delta_pct: Key,
    pub log_return: Key,
    pub price_delta_pct: Key,
    /// The change less the change of the window before.
    pub accel: Key,
    /// The variance of the compared changes.
    pub variance: Key,
    pub zscore: Key,
}

/// The open interest over one window.
#[derive(Clone, Copy, Debug, PartialEq, Eq)]
pub struct OpenInterestWindowMetrics {
    pub window_label: &'static str,
    pub window_minutes: i64,
    pub samples_used: usize,
    pub is_ready: bool,
    pub oi_start: Option<Key>,
    pub oi_end: Option<Key>,
    pub oi_delta_abs: Option<Key>,
    pub oi_delta_pct: Option<Key>,
    pub oi_log_return: Option<Key>,
    pub oi_zscore: Option<Key>,
    pub oi_accel: Option<Key>,
    pub price_start: Option<Key>,
    pub price_end: Option<Key>,
    pub price_delta_pct: Option<Key>,
    pub price_oi_relation: PriceOiRelation,
    pub state: PriceOiRelation,
}

/// A value where a condition holds.
pub open spec fn where_known(known: bool, key: Key) -> Option<Key> {
    if known {
        Some(key)
    } else {
        None
    }
}

fn known(holds: bool, key: Key) -> (out: Option<Key>)
    ensures
        out == where_known(holds, key),
{
    if holds {
        Some(key)
    } else {
        None
    }
}

/// Whether the change of a price from the first to the second is known.
pub open spec fn price_change_known(a: Option<Key>, b: Option<Key>) -> bool {
    a is Some && b is Some && !is_flat(a->0)
}

/// Whether the metrics are those of a window of the series.
pub open spec fn are_open_interest_metrics(
    m: OpenInterestWindowMetrics,
    series: Seq<OpenInterestPoint>,
    window_label: Seq<char>,
    window_minutes: i64,
    sample_count: usize,
    measure: OpenInterestMeasure,
) -> bool {
    let n = series.len() as int;
    let s = sample_count as int;
    &&& m.window_label@ == window_label
    &&& m.window_minutes == window_minutes
    &&& endpoints(n, sample_count) is None ==> {
        &&& m.samples_used == 0 && !m.is_ready
        &&& m.oi_start is None && m.oi_end is None && m.oi_delta_abs is None
        &&& m.oi_delta_pct is None && m.oi_log_return is None && m.oi_zscore is None
        &&& m.oi_accel is None && m.price_start is None && m.price_end is None
        &&& m.price_delta_pct is None && m.price_oi_relation == PriceOiRelation::Neutral
        &&& m.state == PriceOiRelation::Neutral
    }
    &&& endpoints(n, sample_count) matches Some((a, b)) ==> {
        let start = series[a];
        let end = series[b];
        let pct_known = !is_flat(start.value);
        let changes = known_changes(series, sample_count, n);
        &&& m.samples_used == sample_count && m.is_ready
        &&& m.oi_start == Some(start.value) && m.oi_end == Some(end.value)
        &&& m.oi_delta_abs == Some(measure.delta_abs)
        &&& m.oi_delta_pct == where_known(pct_known, measure.delta_pct)
        &&& m.oi_log_return == where_known(
            start.value > KEY_EPS && end.value > KEY_EPS,
            measure.log_return,
        )
        &&& m.oi_zscore == where_known(
            pct_known && changes.len() >= 3 && measure.variance > KEY_EPS,
            measure.zscore,
        )
        &&& m.oi_accel == where_known(
            pct_known && n > 2 * s && !is_flat(series[n - 1 - 2 * s].value),
            measure.accel,
        )
        &&& m.price_start == start.reference_price && m.price_end == end.reference_price
        &&& m.price_delta_pct == where_known(
            price_change_known(start.reference_price, end.reference_price),
            measure.price_delta_pct,
        )
        &&& m.price_oi_relation == relation(m.price_delta_pct, m.oi_delta_pct)
        &&& m.state == relation(m.price_delta_pct, m.oi_delta_pct)
    }
}

/// The open interest over one window.
pub fn compute_open_interest_window(
    series: &[OpenInterestPoint],
    window_label: &'static str,
    window_minutes: i64,
    sample_count: usize,
    measure: &OpenInterestMeasure,
) -> (out: OpenInterestWindowMetrics)
    ensures
        are_open_interest_metrics(
            out,
            series@,
            window_label@,
            window_minutes,
            sample_count,
            *measure,
        ),
{
    let n: usize = series.len();
    let (a, b): (usize, usize) = match interval_endpoints(n, sample_count) {
        Some(ends) => ends,
        None => {
            return OpenInterestWindowMetrics {
                window_label,
                window_minutes,
                samples_used: 0,
                is_ready: false,
                oi_start: None,
                oi_end: None,
                oi_delta_abs: None,
                oi_delta_pct: None,
                oi_log_return: None,
                oi_zscore: None,
                oi_accel: None,
                price_start: None,
                price_end: None,
                price_delta_pct: None,
                price_oi_relation: PriceOiRelation::Neutral,
                state: PriceOiRelation::Neutral,
            };
        },
    };
    let start: OpenInterestPoint = series[a];
    let end: OpenInterestPoint = series[b];
    let pct_known: bool = !flat(start.value);
    let oi_delta_pct: Option<Key> = known(pct_known, measure.delta_pct);
    let price_known: bool = match (start.reference_price, end.reference_price) {
        (Some(p), Some(_)) => !flat(p),
        _ => false,
    };
    let price_delta_pct: Option<Key> = known(price_known, measure.price_delta_pct);
    let before: bool = pct_known && a >= sample_count && !flat(series[a - sample_count].value);
    let compared: bool = compared_changes(series, sample_count).is_some();
    let state: PriceOiRelation = classify_price_oi_relation(price_delta_pct, oi_delta_pct);
    OpenInterestWindowMetrics {
        window_label,
        window_minutes,
        samples_used: sample_count,
        is_ready: true,
        oi_start: Some(start.value),
        oi_end: Some(end.value),
        oi_delta_abs: Some(measure.delta_abs),
        oi_delta_pct,
        oi_log_return: known(start.value > KEY_EPS && end.value > KEY_EPS, measure.log_return),
        oi_zscore: known(
            pct_known && compared && measure.variance > KEY_EPS,
            measure.zscore,
        ),
        oi_accel: known(before, measure.accel),
        price_start: start.reference_price,
        price_end: end.reference_price,
        price_delta_pct,
        price_oi_relation: state,
        state,
    }
}

/// The open interest now.
#[derive(Clone, Copy, Debug, PartialEq, Eq)]
pub struct CurrentOpenInterest {
    pub contracts: Key,
    pub mark_price: Option<Key>,
    pub value: Option<Key>,
}

/// What is measured of the open interest now against the newest sample.
#[derive(Clone, Copy, Debug, PartialEq, Eq)]
pub struct CurrentMeasure {
    pub delta_abs: Key,
    pub delta_pct: Key,
    pub price_pct: Key,
}

/// The open interest now and over the windows.
#[derive(Clone, Debug, PartialEq, Eq)]
pub struct OpenInterestIndicatorView {
    pub as_of_ts: Option<i64>,
    pub current_open_interest_contracts: Option<Key>,
    pub current_mark_price: Option<Key>,
    pub current_open_interest_value_usdt: Option<Key>,
    pub current_delta_abs: Option<Key>,
    pub current_delta_pct: Option<Key>,
    pub current_state: PriceOiRelation,
    pub by_window: Vec<OpenInterestWindowMetrics>,
}

/// Whether a view tells of the open interest now and over the windows.
pub open spec fn is_open_interest_view(
    view: OpenInterestIndicatorView,
    series: Seq<OpenInterestPoint>,
    current: Option<CurrentOpenInterest>,
    as_of_ts: Option<i64>,
    current_measure: CurrentMeasure,
    measures: Seq<OpenInterestMeasure>,
) -> bool {
    let newest = if series.len() == 0 {
        None
    } else {
        Some(series.last())
    };
    let value = match current {
        Some(c) => c.value,
        None => None,
    };
    let price = match current {
        Some(c) => c.mark_price,
        None => None,
    };
    &&& view.as_of_ts == as_of_ts
    &&& view.current_open_interest_contracts == match current {
        Some(c) => Some(c.contracts),
        None => None,
    }
    &&& view.current_mark_price == price
    &&& view.current_open_interest_value_usdt == value
    &&& view.current_delta_abs == where_known(
        value is Some && newest is Some,
        current_measure.delta_abs,
    )
    &&& view.current_delta_pct == where_known(
        value is Some && newest is Some && !is_flat(newest->0.value),
        current_measure.delta_pct,
    )
    &&& view.current_state == relation(
        where_known(
            price is Some && newest is Some && newest->0.reference_price is Some && !is_flat(
                newest->0.reference_price->0,
            ),
            current_measure.price_pct,
        ),
        view.current_delta_pct,
    )
    &&& view.by_window@.len() == 5
    &&& forall|w: int|
        0 <= w < 5 ==> are_open_interest_metrics(
            #[trigger] view.by_window@[w],
            series,
            spec_windows()[w].0,
            spec_windows()[w].1,
            spec_windows()[w].2,
            measures[w],
        )
}

/// The open interest now and over the windows, each with its measure.
pub fn build_open_interest_view(
    series: &[OpenInterestPoint],
    current: Option<CurrentOpenInterest>,
    as_of_ts: Option<i64>,
    current_measure: &CurrentMeasure,
    measures: &[OpenInterestMeasure; 5],
) -> (out: OpenInterestIndicatorView)
    ensures
        is_open_interest_view(out, series@, current, as_of_ts, *current_measure, measures@),
{
    let newest: Option<OpenInterestPoint> = if series.len() == 0 {
        None
    } else {
        Some(series[series.len() - 1])
    };
    let value: Option<Key> = match current {
        Some(c) => c.value,
        None => None,
    };
    let price: Option<Key> = match current {
        Some(c) => c.mark_price,
        None => None,
    };
    let abs_known: bool = value.is_some() && newest.is_some();
    let pct_known: bool = match (value, newest) {
        (Some(_), Some(point)) => !flat(point.value),
        _ => false,
    };
    let price_known: bool = match (price, newest) {
        (Some(_), Some(point)) => match point.reference_price {
            Some(p) => !flat(p),
            None => false,
        },
        _ => false,
    };
    let current_delta_pct: Option<Key> = known(pct_known, current_measure.delta_pct);
    let windows = sample_windows();
    let mut by_window: Vec<OpenInterestWindowMetrics> = Vec::new();
    let mut w: usize = 0;
    while w < 5
        invariant
            w <= 5,
            forall|i: int|
                0 <= i < 5 ==> (#[trigger] windows@[i]).0@ == spec_windows()[i].0 && windows@[i].1
                    == spec_windows()[i].1 && windows@[i].2 == spec_windows()[i].2,
            by_window@.len() == w,
            forall|i: int|
                0 <= i < w ==> are_open_interest_metrics(
                    #[trigger] by_window@[i],
                    series@,
                    spec_windows()[i].0,
                    spec_windows()[i].1,
                    spec_windows()[i].2,
                    measures@[i],
                ),
        decreases 5 - w,
    {
        let (label, minutes, samples): (&'static str, i64, usize) = windows[w];
        assert(windows@[w as int].0@ == spec_windows()[w as int].0);
        by_window.push(
            compute_open_interest_window(series, label, minutes, samples, &measures[w]),
        );
        w += 1;
    }
    OpenInterestIndicatorView {
        as_of_ts,
        current_open_interest_contracts: match current {
            Some(c) => Some(c.contracts),
            None => None,
        },
        current_mark_price: price,
        current_open_interest_value_usdt: value,
        current_delta_abs: known(abs_known, current_measure.delta_abs),
        current_delta_pct,
        current_state: classify_price_oi_relation(
            known(price_known, current_measure.price_pct),
            current_delta_pct,
        ),
        by_window,
    }
}

/// The report of a minute on open interest.
#[derive(Debug)]
pub struct OpenInterestReport {
    pub view: OpenInterestIndicatorView,
    /// The windows that get a row of their own.
    pub rows: Vec<usize>,
}

/// The open interest indicator.
pub struct I25OpenInterest;

impl I25OpenInterest {
    /// The code of the indicator.
    pub fn code(&self) -> (out: &'static str)
        ensures
            out@ == "open_interest"@,
    {
        "open_interest"
    }

    /// The report of a minute: the open interest now and over the windows, and the windows
    /// that get a row of their own.
    pub fn evaluate(
        &self,
        series: &[OpenInterestPoint],
        current: Option<CurrentOpenInterest>,
        as_of_ts: Option<i64>,
        current_measure: &CurrentMeasure,
        measures: &[OpenInterestMeasure; 5],
    ) -> (out: OpenInterestReport)
        ensures
            is_open_interest_view(
                out.view,
                series@,
                current,
                as_of_ts,
                *current_measure,
                measures@,
            ),
            out.rows@ == own_rows(),
    {
        OpenInterestReport {
            view: build_open_interest_view(series, current, as_of_ts, current_measure, measures),
            rows: rows_of_windows(),
        }
    }
}

/// A sample of a ratio of long to short.
#[derive(Clone, Copy, Debug, PartialEq, Eq)]
pub struct LongShortRatioPoint {
    pub ts_bucket: i64,
    pub long_short_ratio: Key,
}

/// The three ratios of one instant.
#[derive(Clone, Copy, Debug, PartialEq, Eq)]
pub struct AlignedRatioPoint {
    pub ts_bucket: i64,
    pub global_account: Key,
    pub top_account: Key,
    pub top_position: Key,
}

/// The ratio of an instant: that of its last sample among the first `hi`.
pub open spec fn ratio_at(points: Seq<LongShortRatioPoint>, ts: i64, hi: int) -> Option<Key>
    decreases hi,
{
    if hi <= 0 {
        None
    } else if points[hi - 1].ts_bucket == ts {
        Some(points[hi - 1].long_short_ratio)
    } else {
        ratio_at(points, ts, hi - 1)
    }
}

/// The three ratios of an instant, where all three are known.
pub open spec fn aligned_at(
    global: Seq<LongShortRatioPoint>,
    account: Seq<LongShortRatioPoint>,
    position: Seq<LongShortRatioPoint>,
    ts: i64,
) -> Option<AlignedRatioPoint> {
    match (
        ratio_at(global, ts, global.len() as int),
        ratio_at(account, ts, account.len() as int),
        ratio_at(position, ts, position.len() as int),
    ) {
        (Some(g), Some(a), Some(p)) => Some(
            AlignedRatioPoint { ts_bucket: ts, global_account: g, top_account: a, top_position: p },
        ),
        _ => None,
    }
}

/// The instants of a series.
spec fn stamps_of(points: Seq<LongShortRatioPoint>) -> Seq<Option<i64>> {
    Seq::new(points.len(), |i: int| Some(points[i].ts_bucket))
}

proof fn lemma_ratio_at(points: Seq<LongShortRatioPoint>, ts: i64, hi: int)
    requires
        0 <= hi <= points.len(),
        points.len() <= usize::MAX,
    ensures
        ({
            let places = grouping::places_of(stamps_of(points), ts, hi);
            match ratio_at(points, ts, hi) {
                None => places.len() == 0,
                Some(r) => places.len() > 0 && points[places.last() as int].long_short_ratio == r,
            }
        }),
    decreases hi,
{
    if hi > 0 {
        lemma_ratio_at(points, ts, hi - 1);
    }
}

fn by_instant(points: &[LongShortRatioPoint]) -> (out: Vec<Group>)
    ensures
        grouping::are_groups(out@, stamps_of(points@), points@.len() as int),
        points@.len() <= usize::MAX,
{
    let n: usize = points.len();
    let mut keys: Vec<Option<i64>> = Vec::new();
    let mut i: usize = 0;
    while i < n
        invariant
            i <= n,
            n == points@.len(),
            keys@ =~= stamps_of(points@).take(i as int),
        decreases n - i,
    {
        keys.push(Some(points[i].ts_bucket));
        i += 1;
    }
    assert(keys@ =~= stamps_of(points@));
    gather(&keys)
}

fn ratio_of(points: &[LongShortRatioPoint], groups: &[Group], ts: i64) -> (out: Option<Key>)
    requires
        grouping::are_groups(groups@, stamps_of(points@), points@.len() as int),
        points@.len() <= usize::MAX,
    ensures
        out == ratio_at(points@, ts, points@.len() as int),
{
    let ghost keys = stamps_of(points@);
    let at: usize = lower_bound(groups, ts);
    proof {
        let stamps = history::stamps(groups@);
        assert forall|a: int, b: int| 0 <= a <= b < stamps.len() implies stamps[a] <= stamps[b] by {
            if a < b {
                assert(groups@[a].key < groups@[b].key);
            }
        }
        history::lemma_first_at_or_after(stamps, ts);
        lemma_ratio_at(points@, ts, points@.len() as int);
        grouping::law_places_of(keys, ts, points@.len() as int);
    }
    if at < groups.len() && groups[at].key == ts {
        assert(groups@[at as int].places@ == grouping::places_of(
            keys,
            ts,
            points@.len() as int,
        ));
        let places: &Vec<usize> = &groups[at].places;
        Some(points[places[places.len() - 1]].long_short_ratio)
    } else {
        proof {
            let stamps = history::stamps(groups@);
            let places = grouping::places_of(keys, ts, points@.len() as int);
            if places.len() > 0 {
                let i = places[0] as int;
                assert(keys[i] == Some(ts));
                assert(grouping::has_key(groups@, ts));
                let g = choose|g: int| 0 <= g < groups@.len() && (#[trigger] groups@[g]).key == ts;
                assert(stamps[g] == ts);
                if g > at {
                    assert(groups@[at as int].key < groups@[g].key);
                    assert(stamps[at as int] >= ts);
                }
            }
        }
        None
    }
}

/// Whether the points are the instants of which all three ratios are known, in order.
pub open spec fn are_aligned(
    points: Seq<AlignedRatioPoint>,
    global: Seq<LongShortRatioPoint>,
    account: Seq<LongShortRatioPoint>,
    position: Seq<LongShortRatioPoint>,
) -> bool {
    &&& forall|a: int, b: int|
        0 <= a < b < points.len() ==> (#[trigger] points[a]).ts_bucket < (
        #[trigger] points[b]).ts_bucket
    &&& forall|a: int|
        0 <= a < points.len() ==> aligned_at(
            global,
            account,
            position,
            (#[trigger] points[a]).ts_bucket,
        ) == Some(points[a])
    &&& forall|ts: i64|
        (#[trigger] aligned_at(global, account, position, ts)) is Some ==> has_instant(points, ts)
}

/// Whether one of the points is of an instant.
pub open spec fn has_instant(points: Seq<AlignedRatioPoint>, ts: i64) -> bool {
    exists|a: int| 0 <= a < points.len() && (#[trigger] points[a]).ts_bucket == ts
}

/// The instants of which all three ratios are known, in order; of several samples of one
/// instant the last counts.
pub fn align_ratio_series(
    global_account: &[LongShortRatioPoint],
    top_account: &[LongShortRatioPoint],
    top_position: &[LongShortRatioPoint],
) -> (out: Vec<AlignedRatioPoint>)
    ensures
        are_aligned(out@, global_account@, top_account@, top_position@),
{
    let global_groups: Vec<Group> = by_instant(global_account);
    let account_groups: Vec<Group> = by_instant(top_account);
    let position_groups: Vec<Group> = by_instant(top_position);
    let mut out: Vec<AlignedRatioPoint> = Vec::new();
    let mut g: usize = 0;
    while g < global_groups.len()
        invariant
            g <= global_groups@.len(),
            grouping::are_groups(
                global_groups@,
                stamps_of(global_account@),
                global_account@.len() as int,
            ),
            grouping::are_groups(
                account_groups@,
                stamps_of(top_account@),
                top_account@.len() as int,
            ),
            grouping::are_groups(
                position_groups@,
                stamps_of(top_position@),
                top_position@.len() as int,
            ),
            global_account@.len() <= usize::MAX,
            top_account@.len() <= usize::MAX,
            top_position@.len() <= usize::MAX,
            forall|a: int, b: int|
                0 <= a < b < out@.len() ==> (#[trigger] out@[a]).ts_bucket < (
                #[trigger] out@[b]).ts_bucket,
            forall|a: int|
                0 <= a < out@.len() && g < global_groups@.len() ==> (
                #[trigger] out@[a]).ts_bucket < global_groups@[g as int].key,
            forall|a: int|
                0 <= a < out@.len() ==> aligned_at(
                    global_account@,
                    top_account@,
                    top_position@,
                    (#[trigger] out@[a]).ts_bucket,
                ) == Some(out@[a]),
            forall|h: int|
                0 <= h < g && aligned_at(
                    global_account@,
                    top_account@,
                    top_position@,
                    (#[trigger] global_groups@[h]).key,
                ) is Some ==> has_instant(out@, global_groups@[h].key),
        decreases global_groups@.len() - g,
    {
        let ghost before = out@;
        let ts: i64 = global_groups[g].key;
        match (
            ratio_of(global_account, &global_groups, ts),
            ratio_of(top_account, &account_groups, ts),
            ratio_of(top_position, &position_groups, ts),
        ) {
            (Some(global), Some(account), Some(position)) => {
                out.push(
                    AlignedRatioPoint {
                        ts_bucket: ts,
                        global_account: global,
                        top_account: account,
                        top_position: position,
                    },
                );
                assert(out@[out@.len() - 1].ts_bucket == ts);
            },
            _ => {},
        }
        proof {
            assert forall|h: int|
                0 <= h < g + 1 && aligned_at(
                    global_account@,
                    top_account@,
                    top_position@,
                    (#[trigger] global_groups@[h]).key,
                ) is Some implies has_instant(out@, global_groups@[h].key) by {
                if h < g {
                    assert(has_instant(before, global_groups@[h].key));
                    let a = choose|a: int|
                        0 <= a < before.len() && (#[trigger] before[a]).ts_bucket
                            == global_groups@[h].key;
                    assert(out@[a].ts_bucket == global_groups@[h].key);
                } else {
                    assert(out@[out@.len() - 1].ts_bucket == ts);
                }
            }
            if g + 1 < global_groups@.len() {
                assert(global_groups@[g as int].key < global_groups@[g + 1].key);
                assert forall|a: int| 0 <= a < out@.len() implies (#[trigger] out@[a]).ts_bucket
                    < global_groups@[g + 1].key by {
                    if a < before.len() {
                        assert(before[a].ts_bucket < global_groups@[g as int].key);
                    }
                }
            }
        }
        g += 1;
    }
    proof {
        assert forall|ts: i64|
            (#[trigger] aligned_at(
                global_account@,
                top_account@,
                top_position@,
                ts,
            )) is Some implies has_instant(out@, ts) by {
            let keys = stamps_of(global_account@);
            let n = global_account@.len() as int;
            lemma_ratio_at(global_account@, ts, n);
            grouping::law_places_of(keys, ts, n);
            let places = grouping::places_of(keys, ts, n);
            let i = places[0] as int;
            assert(keys[i] == Some(ts));
            assert(grouping::has_key(global_groups@, ts));
            let h = choose|h: int|
                0 <= h < global_groups@.len() && (#[trigger] global_groups@[h]).key == ts;
            assert(has_instant(out@, global_groups@[h].key));
        }
    }
    out
}

/// On which side the market is crowded.
#[derive(Clone, Copy, Debug, PartialEq, Eq)]
pub enum CrowdingState {
    LongCrowdingUnwind,
    CrowdedLong,
    ShortCrowdingUnwind,
    CrowdedShort,
    Balanced,
}

impl CrowdingState {
    /// The name of the state.
    pub open spec fn spec_name(self) -> Seq<char> {
        match self {
            CrowdingState::LongCrowdingUnwind => "long_crowding_unwind"@,
            CrowdingState::CrowdedLong => "crowded_long"@,
            CrowdingState::ShortCrowdingUnwind => "short_crowding_unwind"@,
            CrowdingState::CrowdedShort => "crowded_short"@,
            CrowdingState::Balanced => "balanced"@,
        }
    }

    /// The name of the state.
    pub fn name(self) -> (out: &'static str)
        ensures
            out@ == self.spec_name(),
    {
        match self {
            CrowdingState::LongCrowdingUnwind => "long_crowding_unwind",
            CrowdingState::CrowdedLong => "crowded_long",
            CrowdingState::ShortCrowdingUnwind => "short_crowding_unwind",
            CrowdingState::CrowdedShort => "crowded_short",
            CrowdingState::Balanced => "balanced",
        }
    }
}

/// The changes of the three ratios over a window.
#[derive(Clone, Copy, Debug, PartialEq, Eq)]
pub struct RatioChanges {
    pub global: Key,
    pub top_account: Key,
    pub top_position: Key,
}

/// On which side the market is crowded: all ratios lean to it, the top ones more than
/// the global one; it unwinds where all three moved away from it.
pub open spec fn crowding(end: AlignedRatioPoint, changes: RatioChanges) -> CrowdingState {
    if end.global_account > KEY_LONG_LEAN && end.top_account > end.global_account
        && end.top_position > end.global_account {
        if changes.global < -KEY_EPS && changes.top_account < -KEY_EPS && changes.top_position
            < -KEY_EPS {
            CrowdingState::LongCrowdingUnwind
        } else {
            CrowdingState::CrowdedLong
        }
    } else if end.global_account < KEY_SHORT_LEAN && end.top_account < end.global_account
        && end.top_position < end.global_account {
        if changes.global > KEY_EPS && changes.top_account > KEY_EPS && changes.top_position
            > KEY_EPS {
            CrowdingState::ShortCrowdingUnwind
        } else {
            CrowdingState::CrowdedShort
        }
    } else {
        CrowdingState::Balanced
    }
}

/// On which side the market is crowded.
pub fn classify_crowding_state(end: &AlignedRatioPoint, changes: &RatioChanges) -> (out:
    CrowdingState)
    ensures
        out == crowding(*end, *changes),
{
    if end.global_account > KEY_LONG_LEAN && end.top_account > end.global_account
        && end.top_position > end.global_account {
        if changes.global < -KEY_EPS && changes.top_account < -KEY_EPS && changes.top_position
            < -KEY_EPS {
            CrowdingState::LongCrowdingUnwind
        } else {
            CrowdingState::CrowdedLong
        }
    } else if end.global_account < KEY_SHORT_LEAN && end.top_account < end.global_account
        && end.top_position < end.global_account {
        if changes.global > KEY_EPS && changes.top_account > KEY_EPS && changes.top_position
            > KEY_EPS {
            CrowdingState::ShortCrowdingUnwind
        } else {
            CrowdingState::CrowdedShort
        }
    } else {
        CrowdingState::Balanced
    }
}

/// What is measured of a window of the ratios.
#[derive(Clone, Copy, Debug, PartialEq, Eq)]
pub struct RatioMeasure {
    pub changes: RatioChanges,
    pub global_log: Key,
    pub top_account_log: Key,
    pub top_position_log: Key,
    pub account_gap: Key,
    pub position_gap: Key,
    pub stretch: Key,
    /// The variance of the compared stretches.
    pub variance: Key,
    pub zscore: Key,
}

/// The ratios over one window.
#[derive(Clone, Copy, Debug, PartialEq, Eq)]
pub struct LongShortRatioWindowMetrics {
    pub window_label: &'static str,
    pub window_minutes: i64,
    pub samples_used: usize,
    pub is_ready: bool,
    pub global_ratio_latest: Option<Key>,
    pub top_account_ratio_latest: Option<Key>,
    pub top_position_ratio_latest: Option<Key>,
    pub global_ratio_log: Option<Key>,
    pub top_account_ratio_log: Option<Key>,
    pub top_position_ratio_log: Option<Key>,
    pub global_ratio_change: Option<Key>,
    pub top_account_ratio_change: Option<Key>,
    pub top_position_ratio_change: Option<Key>,
    pub account_crowding_gap: Option<Key>,
    pub position_crowding_gap: Option<Key>,
    pub crowding_stretch: Option<Key>,
    pub crowding_zscore: Option<Key>,
    pub crowding_state: CrowdingState,
}

/// The places that the newest stretch is compared with, from the first to before the
/// second; none where fewer than three are known.
pub open spec fn stretches(n: int, sample_count: usize) -> Option<(int, int)> {
    if n < sample_count + 3 {
        None
    } else if n - sample_count > 60 {
        Some((n - 60, n))
    } else {
        Some((sample_count as int, n))
    }
}

/// The places that the newest stretch is compared with.
pub fn compared_stretches(n: usize, sample_count: usize) -> (out: Option<(usize, usize)>)
    ensures
        match out {
            None => stretches(n as int, sample_count) is None,
            Some((a, b)) => stretches(n as int, sample_count) == Some((a as int, b as int)),
        },
{
    if n <= sample_count || n - sample_count < 3 {
        None
    } else if n - sample_count > ZSCORE_LOOKBACK {
        Some((n - ZSCORE_LOOKBACK, n))
    } else {
        Some((sample_count, n))
    }
}

/// Whether the metrics are those of a window of the ratios.
pub open spec fn are_ratio_metrics(
    m: LongShortRatioWindowMetrics,
    aligned: Seq<AlignedRatioPoint>,
    window_label: Seq<char>,
    window_minutes: i64,
    sample_count: usize,
    measure: RatioMeasure,
) -> bool {
    let n = aligned.len() as int;
    &&& m.window_label@ == window_label
    &&& m.window_minutes == window_minutes
    &&& endpoints(n, sample_count) is None ==> {
        &&& m.samples_used == 0 && !m.is_ready
        &&& m.global_ratio_latest is None && m.top_account_ratio_latest is None
        &&& m.top_position_ratio_latest is None && m.global_ratio_log is None
        &&& m.top_account_ratio_log is None && m.top_position_ratio_log is None
        &&& m.global_ratio_change is None && m.top_account_ratio_change is None
        &&& m.top_position_ratio_change is None && m.account_crowding_gap is None
        &&& m.position_crowding_gap is None && m.crowding_stretch is None
        &&& m.crowding_zscore is None && m.crowding_state == CrowdingState::Balanced
    }
    &&& endpoints(n, sample_count) matches Some((a, b)) ==> {
        let end = aligned[b];
        &&& m.samples_used == sample_count && m.is_ready
        &&& m.global_ratio_latest == Some(end.global_account)
        &&& m.top_account_ratio_latest == Some(end.top_account)
        &&& m.top_position_ratio_latest == Some(end.top_position)
        &&& m.global_ratio_log == where_known(end.global_account > KEY_EPS, measure.global_log)
        &&& m.top_account_ratio_log == where_known(
            end.top_account > KEY_EPS,
            measure.top_account_log,
        )
        &&& m.top_position_ratio_log == where_known(
            end.top_position > KEY_EPS,
            measure.top_position_log,
        )
        &&& m.global_ratio_change == Some(measure.changes.global)
        &&& m.top_account_ratio_change == Some(measure.changes.top_account)
        &&& m.top_position_ratio_change == Some(measure.changes.top_position)
        &&& m.account_crowding_gap == Some(measure.account_gap)
        &&& m.position_crowding_gap == Some(measure.position_gap)
        &&& m.crowding_stretch == Some(measure.stretch)
        &&& m.crowding_zscore == where_known(
            stretches(n, sample_count) is Some && measure.variance > KEY_EPS,
            measure.zscore,
        )
        &&& m.crowding_state == crowding(end, measure.changes)
    }
}

/// The ratios over one window.
pub fn compute_long_short_window(
    aligned: &[AlignedRatioPoint],
    window_label: &'static str,
    window_minutes: i64,
    sample_count: usize,
    measure: &RatioMeasure,
) -> (out: LongShortRatioWindowMetrics)
    ensures
        are_ratio_metrics(
            out,
            aligned@,
            window_label@,
            window_minutes,
            sample_count,
            *measure,
        ),
{
    let n: usize = aligned.len();
    let end: AlignedRatioPoint = match interval_endpoints(n, sample_count) {
        Some((_, b)) => aligned[b],
        None => {
            return LongShortRatioWindowMetrics {
                window_label,
                window_minutes,
                samples_used: 0,
                is_ready: false,
                global_ratio_latest: None,
                top_account_ratio_latest: None,
                top_position_ratio_latest: None,
                global_ratio_log: None,
                top_account_ratio_log: None,
                top_position_ratio_log: None,
                global_ratio_change: None,
                top_account_ratio_change: None,
                top_position_ratio_change: None,
                account_crowding_gap: None,
                position_crowding_gap: None,
                crowding_stretch: None,
                crowding_zscore: None,
                crowding_state: CrowdingState::Balanced,
            };
        },
    };
    LongShortRatioWindowMetrics {
        window_label,
        window_minutes,
        samples_used: sample_count,
        is_ready: true,
        global_ratio_latest: Some(end.global_account),
        top_account_ratio_latest: Some(end.top_account),
        top_position_ratio_latest: Some(end.top_position),
        global_ratio_log: known(end.global_account > KEY_EPS, measure.global_log),
        top_account_ratio_log: known(end.top_account > KEY_EPS, measure.top_account_log),
        top_position_ratio_log: known(end.top_position > KEY_EPS, measure.top_position_log),
        global_ratio_change: Some(measure.changes.global),
        top_account_ratio_change: Some(measure.changes.top_account),
        top_position_ratio_change: Some(measure.changes.top_position),
        account_crowding_gap: Some(measure.account_gap),
        position_crowding_gap: Some(measure.position_gap),
        crowding_stretch: Some(measure.stretch),
        crowding_zscore: known(
            compared_stretches(n, sample_count).is_some() && measure.variance > KEY_EPS,
            measure.zscore,
        ),
        crowding_state: classify_crowding_state(&end, &measure.changes),
    }
}

/// The ratios now and over the windows.
#[derive(Clone, Debug, PartialEq, Eq)]
pub struct LongShortRatioIndicatorView {
    pub as_of_ts: Option<i64>,
    pub global_account_ratio: Option<Key>,
    pub top_account_ratio: Option<Key>,
    pub top_position_ratio: Option<Key>,
    pub crowding_state_current: CrowdingState,
    pub by_window: Vec<LongShortRatioWindowMetrics>,
}

/// Whether a view tells of the ratios now and over the windows.
pub open spec fn is_ratio_view(
    view: LongShortRatioIndicatorView,
    aligned: Seq<AlignedRatioPoint>,
    as_of_ts: Option<i64>,
    measures: Seq<RatioMeasure>,
) -> bool {
    &&& view.as_of_ts == as_of_ts
    &&& aligned.len() == 0 ==> view.global_account_ratio is None && view.top_account_ratio is None
        && view.top_position_ratio is None
    &&& aligned.len() > 0 ==> view.global_account_ratio == Some(aligned.last().global_account)
        && view.top_account_ratio == Some(aligned.last().top_account)
        && view.top_position_ratio == Some(aligned.last().top_position)
    &&& view.by_window@.len() == 5
    &&& view.crowding_state_current == view.by_window@[0].crowding_state
    &&& forall|w: int|
        0 <= w < 5 ==> are_ratio_metrics(
            #[trigger] view.by_window@[w],
            aligned,
            spec_windows()[w].0,
            spec_windows()[w].1,
            spec_windows()[w].2,
            measures[w],
        )
}

/// The ratios now and over the windows, each with its measure.
pub fn build_long_short_ratio_view(
    aligned: &[AlignedRatioPoint],
    as_of_ts: Option<i64>,
    measures: &[RatioMeasure; 5],
) -> (out: LongShortRatioIndicatorView)
    ensures
        is_ratio_view(out, aligned@, as_of_ts, measures@),
{
    let windows = sample_windows();
    let mut by_window: Vec<LongShortRatioWindowMetrics> = Vec::new();
    let mut w: usize = 0;
    while w < 5
        invariant
            w <= 5,
            forall|i: int|
                0 <= i < 5 ==> (#[trigger] windows@[i]).0@ == spec_windows()[i].0 && windows@[i].1
                    == spec_windows()[i].1 && windows@[i].2 == spec_windows()[i].2,
            by_window@.len() == w,
            forall|i: int|
                0 <= i < w ==> are_ratio_metrics(
                    #[trigger] by_window@[i],
                    aligned@,
                    spec_windows()[i].0,
                    spec_windows()[i].1,
                    spec_windows()[i].2,
                    measures@[i],
                ),
        decreases 5 - w,
    {
        let (label, minutes, samples): (&'static str, i64, usize) = windows[w];
        assert(windows@[w as int].0@ == spec_windows()[w as int].0);
        by_window.push(compute_long_short_window(aligned, label, minutes, samples, &measures[w]));
        w += 1;
    }
    let latest: Option<AlignedRatioPoint> = if aligned.len() == 0 {
        None
    } else {
        Some(aligned[aligned.len() - 1])
    };
    LongShortRatioIndicatorView {
        as_of_ts,
        global_account_ratio: match latest {
            Some(point) => Some(point.global_account),
            None => None,
        },
        top_account_ratio: match latest {
            Some(point) => Some(point.top_account),
            None => None,
        },
        top_position_ratio: match latest {
            Some(point) => Some(point.top_position),
            None => None,
        },
        crowding_state_current: by_window[0].crowding_state,
        by_window,
    }
}

/// The report of a minute on the ratios.
#[derive(Debug)]
pub struct LongShortRatioReport {
    /// The instants of which all three ratios are known.
    pub aligned: Vec<AlignedRatioPoint>,
    /// What was measured of each window.
    pub measures: [RatioMeasure; 5],
    pub view: LongShortRatioIndicatorView,
    /// The windows that get a row of their own.
    pub rows: Vec<usize>,
}

/// The long and short ratios indicator.
pub struct I26LongShortRatios;

impl I26LongShortRatios {
    /// The code of the indicator.
    pub fn code(&self) -> (out: &'static str)
        ensures
            out@ == "long_short_ratios"@,
    {
        "long_short_ratios"
    }

    /// The report of a minute: the instants of which all ratios are known, the ratios now
    /// and over the windows, each with what was measured of it, and the windows that get a
    /// row of their own. A window is measured by those instants and its number of samples.
    pub fn evaluate<F: Fn(&Vec<AlignedRatioPoint>, usize) -> RatioMeasure>(
        &self,
        global_account: &[LongShortRatioPoint],
        top_account: &[LongShortRatioPoint],
        top_position: &[LongShortRatioPoint],
        as_of_ts: Option<i64>,
        measure: F,
    ) -> (out: LongShortRatioReport)
        requires
            forall|aligned: &Vec<AlignedRatioPoint>, samples: usize| #[trigger]
                call_requires(measure, (aligned, samples)),
        ensures
            are_aligned(out.aligned@, global_account@, top_account@, top_position@),
            forall|w: int|
                0 <= w < 5 ==> call_ensures(
                    measure,
                    (&out.aligned, spec_windows()[w].2),
                    #[trigger] out.measures@[w],
                ),
            is_ratio_view(out.view, out.aligned@, as_of_ts, out.measures@),
            out.rows@ == own_rows(),
    {
        let aligned: Vec<AlignedRatioPoint> = align_ratio_series(
            global_account,
            top_account,
            top_position,
        );
        let asked: [(&'static str, i64, usize); 5] = sample_windows();
        let measures: [RatioMeasure; 5] = [
            measure(&aligned, asked[0].2),
            measure(&aligned, asked[1].2),
            measure(&aligned, asked[2].2),
            measure(&aligned, asked[3].2),
            measure(&aligned, asked[4].2),
        ];
        proof {
            assert forall|w: int| 0 <= w < 5 implies call_ensures(
                measure,
                (&aligned, spec_windows()[w].2),
                #[trigger] measures@[w],
            ) by {
                assert(asked@[w].2 == spec_windows()[w].2);
            }
        }
        let view: LongShortRatioIndicatorView = build_long_short_ratio_view(
            aligned.as_slice(),
            as_of_ts,
            &measures,
        );
        LongShortRatioReport { aligned, measures, view, rows: rows_of_windows() }
    }
}

/// A sample of the surface of option volatility.
#[derive(Clone, Debug, PartialEq, Eq)]
pub struct OptionsSurfacePoint {
    pub front_expiry_ts: Option<i64>,
    pub second_expiry_ts: Option<i64>,
    pub atm_strike_front: Option<Key>,
    pub atm_iv_front: Option<Key>,
    pub atm_iv_second: Option<Key>,
    pub atm_iv_30d_proxy: Option<Key>,
    pub rr_25d_front: Option<Key>,
    pub rr_25d_second: Option<Key>,
    pub skew_state: String,
    pub term_structure_state: String,
}

/// How the front volatility stands against the thirty-day one.
#[derive(Clone, Copy, Debug, PartialEq, Eq)]
pub enum IvRegime {
    Elevated,
    Compressed,
    Neutral,
    Unclear,
}

impl IvRegime {
    /// The name of the regime.
    pub open spec fn spec_name(self) -> Seq<char> {
        match self {
            IvRegime::Elevated => "elevated"@,
            IvRegime::Compressed => "compressed"@,
            IvRegime::Neutral => "neutral"@,
            IvRegime::Unclear => "unclear"@,
        }
    }

    /// The name of the regime.
    pub fn name(self) -> (out: &'static str)
        ensures
            out@ == self.spec_name(),
    {
        match self {
            IvRegime::Elevated => "elevated",
            IvRegime::Compressed => "compressed",
            IvRegime::Neutral => "neutral",
            IvRegime::Unclear => "unclear",
        }
    }
}

/// What is measured of a window of the surface.
#[derive(Clone, Copy, Debug, PartialEq, Eq)]
pub struct SurfaceMeasure {
    pub front_minus_proxy: Key,
    pub proxy_minus_front: Key,
    pub atm_iv_front_change: Key,
    pub rr_25d_front_change: Key,
}

/// How the front volatility stands against the thirty-day one: two hundredths above or
/// below it, or nearer; unclear where one is not known.
pub open spec fn iv_regime(
    front: Option<Key>,
    proxy: Option<Key>,
    measure: SurfaceMeasure,
) -> IvRegime {
    if front is None || proxy is None {
        IvRegime::Unclear
    } else if measure.front_minus_proxy >= KEY_IV_APART {
        IvRegime::Elevated
    } else if measure.proxy_minus_front >= KEY_IV_APART {
        IvRegime::Compressed
    } else {
        IvRegime::Neutral
    }
}

/// How the front volatility stands against the thirty-day one.
pub fn classify_atm_iv_regime(
    atm_iv_front: Option<Key>,
    atm_iv_30d_proxy: Option<Key>,
    measure: &SurfaceMeasure,
) -> (out: IvRegime)
    ensures
        out == iv_regime(atm_iv_front, atm_iv_30d_proxy, *measure),
{
    if atm_iv_front.is_none() || atm_iv_30d_proxy.is_none() {
        IvRegime::Unclear
    } else if measure.front_minus_proxy >= KEY_IV_APART {
        IvRegime::Elevated
    } else if measure.proxy_minus_front >= KEY_IV_APART {
        IvRegime::Compressed
    } else {
        IvRegime::Neutral
    }
}

/// The surface over one window.
#[derive(Clone, Debug, PartialEq, Eq)]
pub struct OptionsSurfaceWindowMetrics {
    pub window_label: &'static str,
    pub window_minutes: i64,
    pub samples_used: usize,
    pub is_ready: bool,
    pub front_expiry_ts: Option<i64>,
    pub second_expiry_ts: Option<i64>,
    pub atm_strike_front: Option<Key>,
    pub atm_iv_front: Option<Key>,
    pub atm_iv_second: Option<Key>,
    pub atm_iv_30d_proxy: Option<Key>,
    pub atm_iv_regime: IvRegime,
    pub rr_25d_front: Option<Key>,
    pub rr_25d_second: Option<Key>,
    pub atm_iv_front_change: Option<Key>,
    pub rr_25d_front_change: Option<Key>,
    pub skew_state: String,
    pub term_structure_state: String,
}

/// Whether the metrics are those of a window of the surface.
pub open spec fn are_surface_metrics(
    m: OptionsSurfaceWindowMetrics,
    series: Seq<OptionsSurfacePoint>,
    window_label: Seq<char>,
    window_minutes: i64,
    sample_count: usize,
    measure: SurfaceMeasure,
) -> bool {
    &&& m.window_label@ == window_label
    &&& m.window_minutes == window_minutes
    &&& endpoints(series.len() as int, sample_count) is None ==> {
        &&& m.samples_used == 0 && !m.is_ready
        &&& m.front_expiry_ts is None && m.second_expiry_ts is None
        &&& m.atm_strike_front is None && m.atm_iv_front is None && m.atm_iv_second is None
        &&& m.atm_iv_30d_proxy is None && m.atm_iv_regime == IvRegime::Unclear
        &&& m.rr_25d_front is None && m.rr_25d_second is None
        &&& m.atm_iv_front_change is None && m.rr_25d_front_change is None
        &&& m.skew_state@ == "unclear"@ && m.term_structure_state@ == "unclear"@
    }
    &&& endpoints(series.len() as int, sample_count) matches Some((a, b)) ==> {
        let start = series[a];
        let end = series[b];
        &&& m.samples_used == sample_count && m.is_ready
        &&& m.front_expiry_ts == end.front_expiry_ts && m.second_expiry_ts == end.second_expiry_ts
        &&& m.atm_strike_front == end.atm_strike_front
        &&& m.atm_iv_front == end.atm_iv_front
        &&& m.atm_iv_second == end.atm_iv_second
        &&& m.atm_iv_30d_proxy == end.atm_iv_30d_proxy
        &&& m.atm_iv_regime == iv_regime(end.atm_iv_front, end.atm_iv_30d_proxy, measure)
        &&& m.rr_25d_front == end.rr_25d_front && m.rr_25d_second == end.rr_25d_second
        &&& m.atm_iv_front_change == where_known(
            end.atm_iv_front is Some && start.atm_iv_front is Some,
            measure.atm_iv_front_change,
        )
        &&& m.rr_25d_front_change == where_known(
            end.rr_25d_front is Some && start.rr_25d_front is Some,
            measure.rr_25d_front_change,
        )
        &&& m.skew_state@ == end.skew_state@
        &&& m.term_structure_state@ == end.term_structure_state@
    }
}

/// The surface over one window.
pub fn compute_options_surface_window(
    series: &[OptionsSurfacePoint],
    window_label: &'static str,
    window_minutes: i64,
    sample_count: usize,
    measure: &SurfaceMeasure,
) -> (out: OptionsSurfaceWindowMetrics)
    ensures
        are_surface_metrics(
            out,
            series@,
            window_label@,
            window_minutes,
            sample_count,
            *measure,
        ),
{
    let (a, b): (usize, usize) = match interval_endpoints(series.len(), sample_count) {
        Some(ends) => ends,
        None => {
            return OptionsSurfaceWindowMetrics {
                window_label,
                window_minutes,
                samples_used: 0,
                is_ready: false,
                front_expiry_ts: None,
                second_expiry_ts: None,
                atm_strike_front: None,
                atm_iv_front: None,
                atm_iv_second: None,
                atm_iv_30d_proxy: None,
                atm_iv_regime: IvRegime::Unclear,
                rr_25d_front: None,
                rr_25d_second: None,
                atm_iv_front_change: None,
                rr_25d_front_change: None,
                skew_state: "unclear".to_owned(),
                term_structure_state: "unclear".to_owned(),
            };
        },
    };
    let start: &OptionsSurfacePoint = &series[a];
    let end: &OptionsSurfacePoint = &series[b];
    OptionsSurfaceWindowMetrics {
        window_label,
        window_minutes,
        samples_used: sample_count,
        is_ready: true,
        front_expiry_ts: end.front_expiry_ts,
        second_expiry_ts: end.second_expiry_ts,
        atm_strike_front: end.atm_strike_front,
        atm_iv_front: end.atm_iv_front,
        atm_iv_second: end.atm_iv_second,
        atm_iv_30d_proxy: end.atm_iv_30d_proxy,
        atm_iv_regime: classify_atm_iv_regime(end.atm_iv_front, end.atm_iv_30d_proxy, measure),
        rr_25d_front: end.rr_25d_front,
        rr_25d_second: end.rr_25d_second,
        atm_iv_front_change: known(
            end.atm_iv_front.is_some() && start.atm_iv_front.is_some(),
            measure.atm_iv_front_change,
        ),
        rr_25d_front_change: known(
            end.rr_25d_front.is_some() && start.rr_25d_front.is_some(),
            measure.rr_25d_front_change,
        ),
        skew_state: end.skew_state.clone(),
        term_structure_state: end.term_structure_state.clone(),
    }
}

/// The surface over the windows.
#[derive(Clone, Debug, PartialEq, Eq)]
pub struct OptionsSurfaceIndicatorView {
    pub as_of_ts: Option<i64>,
    pub by_window: Vec<OptionsSurfaceWindowMetrics>,
}

/// Whether a view tells of the surface over the windows.
pub open spec fn is_surface_view(
    view: OptionsSurfaceIndicatorView,
    series: Seq<OptionsSurfacePoint>,
    as_of_ts: Option<i64>,
    measures: Seq<SurfaceMeasure>,
) -> bool {
    &&& view.as_of_ts == as_of_ts
    &&& view.by_window@.len() == 5
    &&& forall|w: int|
        0 <= w < 5 ==> are_surface_metrics(
            #[trigger] view.by_window@[w],
            series,
            spec_windows()[w].0,
            spec_windows()[w].1,
            spec_windows()[w].2,
            measures[w],
        )
}

/// The surface over the windows, each with its measure.
pub fn build_options_surface_view(
    series: &[OptionsSurfacePoint],
    as_of_ts: Option<i64>,
    measures: &[SurfaceMeasure; 5],
) -> (out: OptionsSurfaceIndicatorView)
    ensures
        is_surface_view(out, series@, as_of_ts, measures@),
{
    let windows = sample_windows();
    let mut by_window: Vec<OptionsSurfaceWindowMetrics> = Vec::new();
    let mut w: usize = 0;
    while w < 5
        invariant
            w <= 5,
            forall|i: int|
                0 <= i < 5 ==> (#[trigger] windows@[i]).0@ == spec_windows()[i].0 && windows@[i].1
                    == spec_windows()[i].1 && windows@[i].2 == spec_windows()[i].2,
            by_window@.len() == w,
            forall|i: int|
                0 <= i < w ==> are_surface_metrics(
                    #[trigger] by_window@[i],
                    series@,
                    spec_windows()[i].0,
                    spec_windows()[i].1,
                    spec_windows()[i].2,
                    measures@[i],
                ),
        decreases 5 - w,
    {
        let (label, minutes, samples): (&'static str, i64, usize) = windows[w];
        assert(windows@[w as int].0@ == spec_windows()[w as int].0);
        by_window.push(
            compute_options_surface_window(series, label, minutes, samples, &measures[w]),
        );
        w += 1;
    }
    OptionsSurfaceIndicatorView { as_of_ts, by_window }
}

/// The report of a minute on the options surface.
#[derive(Debug)]
pub struct OptionsSurfaceReport {
    pub view: OptionsSurfaceIndicatorView,
    /// The windows that get a row of their own.
    pub rows: Vec<usize>,
}

/// The options surface indicator.
pub struct I27OptionsSurface;

impl I27OptionsSurface {
    /// The code of the indicator.
    pub fn code(&self) -> (out: &'static str)
        ensures
            out@ == "options_surface"@,
    {
        "options_surface"
    }

    /// The report of a minute: the surface over the windows, and the windows that get a row
    /// of their own.
    pub fn evaluate(
        &self,
        series: &[OptionsSurfacePoint],
        as_of_ts: Option<i64>,
        measures: &[SurfaceMeasure; 5],
    ) -> (out: OptionsSurfaceReport)
        ensures
            is_surface_view(out.view, series@, as_of_ts, measures@),
            out.rows@ == own_rows(),
    {
        OptionsSurfaceReport {
            view: build_options_surface_view(series, as_of_ts, measures),
            rows: rows_of_windows(),
        }
    }
}

/// Every window is as long as its name says, and has one sample for every five minutes of it.
pub proof fn law_windows_are_named(w: int)
    requires
        0 <= w < 5,
    ensures
        clock::named_minutes(spec_windows()[w].0) == spec_windows()[w].1,
        spec_windows()[w].2 * 5 == spec_windows()[w].1,
{
    clock::lemma_named_minutes();
}

/// A window of samples is ready exactly where there are more samples than it spans, at least
/// one; it then ends with the newest sample and starts that many before it.
pub proof fn law_window_ends(n: int, sample_count: usize)
    requires
        n >= 0,
    ensures
        endpoints(n, sample_count) is Some <==> 0 < sample_count < n,
        endpoints(n, sample_count) matches Some((a, b)) ==> b == n - 1 && b - a == sample_count,
{
}

/// Price and open interest that both changed by more than next to nothing tell who moved: a
/// rise of interest builds longs where price rose and shorts where it fell, a fall of
/// interest unwinds longs where price fell and covers shorts where it rose. Where one did not
/// change so, or is not known, nobody did.
pub proof fn law_relation(price: Option<Key>, oi: Option<Key>)
    ensures
        ({
            let up = |x: Option<Key>| x is Some && x->0 > KEY_EPS;
            let down = |x: Option<Key>| x is Some && x->0 < -KEY_EPS;
            let out = relation(price, oi);
            &&& out is LeveragedLongBuild <==> up(price) && up(oi)
            &&& out is FreshShortBuild <==> down(price) && up(oi)
            &&& out is LongUnwind <==> down(price) && down(oi)
            &&& out is ShortCover <==> up(price) && down(oi)
            &&& out is Neutral <==> !(up(price) || down(price)) || !(up(oi) || down(oi))
        }),
{
}

/// The open interest over a window that is ready: from the sample as many before the newest as
/// the window spans to the newest. The relative change is known unless it starts from next to
/// nothing, the return where both ends are above that, the acceleration where the sample as
/// many before the start is there and not next to nothing, the deviation where at least three
/// changes vary; and the window says what the changes of price and interest tell.
pub proof fn law_open_interest_window(
    m: OpenInterestWindowMetrics,
    series: Seq<OpenInterestPoint>,
    window_label: Seq<char>,
    window_minutes: i64,
    sample_count: usize,
    measure: OpenInterestMeasure,
)
    requires
        are_open_interest_metrics(
            m,
            series,
            window_label,
            window_minutes,
            sample_count,
            measure,
        ),
    ensures
        m.is_ready <==> 0 < sample_count < series.len(),
        m.is_ready ==> ({
            let n = series.len() as int;
            let s = sample_count as int;
            let start = series[n - 1 - s];
            let end = series[n - 1];
            let known = start.value > KEY_EPS || start.value < -KEY_EPS;
            &&& m.samples_used == sample_count
            &&& m.oi_start == Some(start.value) && m.oi_end == Some(end.value)
            &&& m.oi_delta_abs == Some(measure.delta_abs)
            &&& known ==> m.oi_delta_pct == Some(measure.delta_pct)
            &&& !known ==> m.oi_delta_pct is None && m.oi_zscore is None && m.oi_accel is None
            &&& m.oi_log_return is Some <==> start.value > KEY_EPS && end.value > KEY_EPS
            &&& m.oi_log_return is Some ==> m.oi_log_return->0 == measure.log_return
            &&& m.oi_accel is Some <==> known && 2 * s < n && (series[n - 1 - 2 * s].value > KEY_EPS
                || series[n - 1 - 2 * s].value < -KEY_EPS)
            &&& m.oi_accel is Some ==> m.oi_accel->0 == measure.accel
            &&& m.oi_zscore is Some <==> known && measure.variance > KEY_EPS && known_changes(
                series,
                sample_count,
                n,
            ).len() >= 3
            &&& m.oi_zscore is Some ==> m.oi_zscore->0 == measure.zscore
            &&& m.price_start == start.reference_price && m.price_end == end.reference_price
            &&& m.price_delta_pct is Some <==> end.reference_price is Some && (
            start.reference_price matches Some(p) && (p > KEY_EPS || p < -KEY_EPS))
            &&& m.price_delta_pct is Some ==> m.price_delta_pct->0 == measure.price_delta_pct
            &&& m.price_oi_relation == m.state
            &&& m.state is LeveragedLongBuild <==> m.price_delta_pct is Some
                && m.price_delta_pct->0 > KEY_EPS && m.oi_delta_pct is Some && m.oi_delta_pct->0
                > KEY_EPS
            &&& m.state is LongUnwind <==> m.price_delta_pct is Some && m.price_delta_pct->0
                < -KEY_EPS && m.oi_delta_pct is Some && m.oi_delta_pct->0 < -KEY_EPS
        }),
        !m.is_ready ==> m.state is Neutral && m.oi_start is None && m.oi_end is None,
{
}

/// The changes that a window can be compared with are those of all samples that lie as many
/// after one which is not next to nothing as the window spans, in order.
pub proof fn law_known_changes(
    values: Seq<OpenInterestPoint>,
    sample_count: usize,
    hi: int,
    i: int,
)
    requires
        hi <= values.len() <= usize::MAX,
        0 <= i <= usize::MAX,
    ensures
        known_changes(values, sample_count, hi).contains(i as usize) <==> sample_count <= i < hi && (
        values[i - sample_count].value > KEY_EPS || values[i - sample_count].value < -KEY_EPS),
        forall|a: int, b: int|
            0 <= a < b < known_changes(values, sample_count, hi).len() ==> #[trigger] known_changes(
                values,
                sample_count,
                hi,
            )[a] < #[trigger] known_changes(values, sample_count, hi)[b],
        forall|a: int|
            0 <= a < known_changes(values, sample_count, hi).len() ==> #[trigger] known_changes(
                values,
                sample_count,
                hi,
            )[a] < hi,
    decreases hi,
{
    let all = known_changes(values, sample_count, hi);
    if hi > sample_count {
        law_known_changes(values, sample_count, hi - 1, i);
        let rest = known_changes(values, sample_count, hi - 1);
        if all.len() > rest.len() {
            assert(all[rest.len() as int] == hi - 1);
            if rest.contains(i as usize) {
                let a = choose|a: int| 0 <= a < rest.len() && rest[a] == i as usize;
                assert(all[a] == i as usize);
            }
            if all.contains(i as usize) && i != hi - 1 {
                let a = choose|a: int| 0 <= a < all.len() && all[a] == i as usize;
                assert(rest[a] == i as usize);
            }
        }
    }
}

/// The ratio of an instant is that of the last sample of it.
pub proof fn law_ratio_of_instant(points: Seq<LongShortRatioPoint>, ts: i64, hi: int, i: int)
    requires
        -1 <= i < hi,
        i >= 0 ==> points[i].ts_bucket == ts,
        forall|j: int| i < j < hi ==> (#[trigger] points[j]).ts_bucket != ts,
    ensures
        i >= 0 ==> ratio_at(points, ts, hi) == Some(points[i].long_short_ratio),
        i < 0 ==> ratio_at(points, ts, hi) is None,
    decreases hi,
{
    if i < hi - 1 {
        law_ratio_of_instant(points, ts, hi - 1, i);
    }
}

/// An instant is among the aligned ones exactly where each of the three series has a sample of
/// it, and then with the ratios of the last samples `g`, `a` and `p` of it.
pub proof fn law_aligned(
    points: Seq<AlignedRatioPoint>,
    global: Seq<LongShortRatioPoint>,
    account: Seq<LongShortRatioPoint>,
    position: Seq<LongShortRatioPoint>,
    ts: i64,
    g: int,
    a: int,
    p: int,
)
    requires
        are_aligned(points, global, account, position),
        is_last_of(global, ts, g),
        is_last_of(account, ts, a),
        is_last_of(position, ts, p),
    ensures
        has_instant(points, ts) <==> g >= 0 && a >= 0 && p >= 0,
        forall|k: int|
            0 <= k < points.len() && (#[trigger] points[k]).ts_bucket == ts ==> {
                &&& points[k].global_account == global[g].long_short_ratio
                &&& points[k].top_account == account[a].long_short_ratio
                &&& points[k].top_position == position[p].long_short_ratio
            },
{
    law_ratio_of_instant(global, ts, global.len() as int, g);
    law_ratio_of_instant(account, ts, account.len() as int, a);
    law_ratio_of_instant(position, ts, position.len() as int, p);
    if has_instant(points, ts) {
        let k = choose|k: int| 0 <= k < points.len() && (#[trigger] points[k]).ts_bucket == ts;
        assert(aligned_at(global, account, position, points[k].ts_bucket) is Some);
    }
    assert(g >= 0 && a >= 0 && p >= 0 ==> aligned_at(global, account, position, ts) is Some);
}

/// Whether a sample is the last one of an instant; -1 where there is none.
pub open spec fn is_last_of(points: Seq<LongShortRatioPoint>, ts: i64, i: int) -> bool {
    &&& -1 <= i < points.len()
    &&& i >= 0 ==> points[i].ts_bucket == ts
    &&& forall|j: int| i < j < points.len() ==> (#[trigger] points[j]).ts_bucket != ts
}

/// A market is crowded on the long side where the global ratio is above 1.02 and both top
/// ratios are above the global one, on the short side where it is below 0.98 and both are
/// below it. It unwinds where all three ratios moved away from the crowd by more than next to
/// nothing.
pub proof fn law_crowding(end: AlignedRatioPoint, changes: RatioChanges)
    ensures
        ({
            let out = crowding(end, changes);
            let long = KEY_LONG_LEAN < end.global_account && end.global_account < end.top_account
                && end.global_account < end.top_position;
            let short = end.global_account < KEY_SHORT_LEAN && end.top_account < end.global_account
                && end.top_position < end.global_account;
            let fell = changes.global < -KEY_EPS && changes.top_account < -KEY_EPS
                && changes.top_position < -KEY_EPS;
            let rose = changes.global > KEY_EPS && changes.top_account > KEY_EPS
                && changes.top_position > KEY_EPS;
            &&& out is LongCrowdingUnwind <==> long && fell
            &&& out is CrowdedLong <==> long && !fell
            &&& out is ShortCrowdingUnwind <==> short && rose
            &&& out is CrowdedShort <==> short && !rose
            &&& out is Balanced <==> !long && !short
            &&& !(long && short)
        }),
{
}

/// The ratios over a window that is ready are those of the newest aligned instant; a logarithm
/// is known where the ratio is above next to nothing, a deviation where three stretches or
/// more vary; and the window says how the market is crowded.
pub proof fn law_ratio_window(
    m: LongShortRatioWindowMetrics,
    aligned: Seq<AlignedRatioPoint>,
    window_label: Seq<char>,
    window_minutes: i64,
    sample_count: usize,
    measure: RatioMeasure,
)
    requires
        are_ratio_metrics(m, aligned, window_label, window_minutes, sample_count, measure),
    ensures
        m.is_ready <==> 0 < sample_count < aligned.len(),
        !m.is_ready ==> m.crowding_state is Balanced && m.global_ratio_latest is None,
        m.is_ready ==> ({
            let end = aligned[aligned.len() - 1];
            &&& m.samples_used == sample_count
            &&& m.global_ratio_latest == Some(end.global_account)
            &&& m.top_account_ratio_latest == Some(end.top_account)
            &&& m.top_position_ratio_latest == Some(end.top_position)
            &&& m.global_ratio_change == Some(measure.changes.global)
            &&& m.top_account_ratio_change == Some(measure.changes.top_account)
            &&& m.top_position_ratio_change == Some(measure.changes.top_position)
            &&& m.account_crowding_gap == Some(measure.account_gap)
            &&& m.position_crowding_gap == Some(measure.position_gap)
            &&& m.crowding_stretch == Some(measure.stretch)
            &&& m.global_ratio_log is Some <==> end.global_account > KEY_EPS
            &&& m.global_ratio_log is Some ==> m.global_ratio_log->0 == measure.global_log
            &&& m.top_account_ratio_log is Some <==> end.top_account > KEY_EPS
            &&& m.top_account_ratio_log is Some ==> m.top_account_ratio_log->0
                == measure.top_account_log
            &&& m.top_position_ratio_log is Some <==> end.top_position > KEY_EPS
            &&& m.top_position_ratio_log is Some ==> m.top_position_ratio_log->0
                == measure.top_position_log
            &&& m.crowding_zscore is Some <==> aligned.len() >= sample_count + 3 && measure.variance
                > KEY_EPS
            &&& m.crowding_zscore is Some ==> m.crowding_zscore->0 == measure.zscore
            &&& (m.crowding_state is CrowdedLong || m.crowding_state is LongCrowdingUnwind) <==> (
            KEY_LONG_LEAN < end.global_account && end.global_account < end.top_account
                && end.global_account < end.top_position)
            &&& (m.crowding_state is CrowdedShort || m.crowding_state is ShortCrowdingUnwind) <==> (
            end.global_account < KEY_SHORT_LEAN && end.top_account < end.global_account
                && end.top_position < end.global_account)
        }),
{
    law_window_ends(aligned.len() as int, sample_count);
    law_crowding(aligned[aligned.len() - 1], measure.changes);
}

/// The newest stretch is compared with up to sixty of those that reach back as many samples as
/// the window spans, the newest ones, if there are three of them at least.
pub proof fn law_stretches(n: int, sample_count: usize)
    requires
        n >= 0,
    ensures
        stretches(n, sample_count) is Some <==> n - sample_count >= 3,
        stretches(n, sample_count) matches Some((a, b)) ==> b == n && sample_count <= a && b - a
            <= 60 && (a == sample_count || b - a == 60),
{
}

/// Front volatility is elevated where it lies two hundredths or more above the thirty-day one,
/// else compressed where it lies as much below it; unclear where either is not known.
pub proof fn law_iv_regime(front: Option<Key>, proxy: Option<Key>, measure: SurfaceMeasure)
    ensures
        ({
            let out = iv_regime(front, proxy, measure);
            let known = front is Some && proxy is Some;
            let above = KEY_IV_APART <= measure.front_minus_proxy;
            let below = KEY_IV_APART <= measure.proxy_minus_front;
            &&& out is Unclear <==> !known
            &&& out is Elevated <==> known && above
            &&& out is Compressed <==> known && !above && below
            &&& out is Neutral <==> known && !above && !below
        }),
{
}

/// The surface over a window that is ready is that of its newest sample; a change is known
/// where both the newest sample and the one at the start of the window have the figure.
pub proof fn law_surface_window(
    m: OptionsSurfaceWindowMetrics,
    series: Seq<OptionsSurfacePoint>,
    window_label: Seq<char>,
    window_minutes: i64,
    sample_count: usize,
    measure: SurfaceMeasure,
)
    requires
        are_surface_metrics(m, series, window_label, window_minutes, sample_count, measure),
    ensures
        m.is_ready <==> 0 < sample_count < series.len(),
        !m.is_ready ==> m.atm_iv_regime is Unclear && m.atm_iv_front is None && m.skew_state@
            == "unclear"@ && m.term_structure_state@ == "unclear"@,
        m.is_ready ==> ({
            let start = series[series.len() - 1 - sample_count];
            let end = series[series.len() - 1];
            &&& m.samples_used == sample_count
            &&& m.front_expiry_ts == end.front_expiry_ts
            &&& m.second_expiry_ts == end.second_expiry_ts
            &&& m.atm_strike_front == end.atm_strike_front
            &&& m.atm_iv_front == end.atm_iv_front && m.atm_iv_second == end.atm_iv_second
            &&& m.atm_iv_30d_proxy == end.atm_iv_30d_proxy
            &&& m.rr_25d_front == end.rr_25d_front && m.rr_25d_second == end.rr_25d_second
            &&& m.skew_state@ == end.skew_state@
            &&& m.term_structure_state@ == end.term_structure_state@
            &&& m.atm_iv_front_change is Some <==> start.atm_iv_front is Some
                && end.atm_iv_front is Some
            &&& m.atm_iv_front_change is Some ==> m.atm_iv_front_change->0
                == measure.atm_iv_front_change
            &&& m.rr_25d_front_change is Some <==> start.rr_25d_front is Some
                && end.rr_25d_front is Some
            &&& m.rr_25d_front_change is Some ==> m.rr_25d_front_change->0
                == measure.rr_25d_front_change
            &&& m.atm_iv_regime is Elevated ==> KEY_IV_APART <= measure.front_minus_proxy
            &&& m.atm_iv_regime is Compressed ==> KEY_IV_APART <= measure.proxy_minus_front
        }),
{
    law_window_ends(series.len() as int, sample_count);
}

/// The thresholds of the rules: a billionth, 1.02, 0.98 and 0.02.
pub proof fn law_thresholds()
    ensures
        order::is_nearest(KEY_EPS, 1, 1_000_000_000),
        order::is_nearest(KEY_LONG_LEAN, 102, 100),
        order::is_nearest(KEY_SHORT_LEAN, 98, 100),
        order::is_nearest(KEY_IV_APART, 2, 100),
{
    order::lemma_powers_of_two();
}

/// The open interest now is what was read of it, and nothing where nothing was. It is compared
/// with the newest sample: its change is known where its value is, the relative one unless the
/// sample has next to nothing, and it says what the changes of price and interest tell.
pub proof fn law_open_interest_now(
    view: OpenInterestIndicatorView,
    series: Seq<OpenInterestPoint>,
    current: Option<CurrentOpenInterest>,
    as_of_ts: Option<i64>,
    current_measure: CurrentMeasure,
    measures: Seq<OpenInterestMeasure>,
)
    requires
        is_open_interest_view(view, series, current, as_of_ts, current_measure, measures),
    ensures
        view.as_of_ts == as_of_ts,
        current is None ==> {
            &&& view.current_open_interest_contracts is None
            &&& view.current_mark_price is None
            &&& view.current_open_interest_value_usdt is None
            &&& view.current_delta_abs is None
            &&& view.current_delta_pct is None
            &&& view.current_state is Neutral
        },
        current matches Some(now) ==> {
            &&& view.current_open_interest_contracts == Some(now.contracts)
            &&& view.current_mark_price == now.mark_price
            &&& view.current_open_interest_value_usdt == now.value
            &&& view.current_delta_abs is Some <==> now.value is Some && series.len() > 0
            &&& view.current_delta_abs is Some ==> view.current_delta_abs == Some(
                current_measure.delta_abs,
            )
            &&& view.current_delta_pct is Some <==> now.value is Some && series.len() > 0 && (
            series.last().value > KEY_EPS || series.last().value < -KEY_EPS)
            &&& view.current_delta_pct is Some ==> view.current_delta_pct == Some(
                current_measure.delta_pct,
            )
            &&& !(view.current_state is Neutral) ==> view.current_delta_pct is Some
                && now.mark_price is Some && (series.last().reference_price matches Some(k) && (k
                > KEY_EPS || k < -KEY_EPS))
            &&& view.current_delta_pct is Some && now.mark_price is Some && (
            series.last().reference_price matches Some(k) && (k > KEY_EPS || k < -KEY_EPS)) ==> {
                let up = current_measure.price_pct > KEY_EPS;
                let down = current_measure.price_pct < -KEY_EPS;
                let more = current_measure.delta_pct > KEY_EPS;
                let less = current_measure.delta_pct < -KEY_EPS;
                &&& view.current_state is LeveragedLongBuild <==> up && more
                &&& view.current_state is FreshShortBuild <==> down && more
                &&& view.current_state is LongUnwind <==> down && less
                &&& view.current_state is ShortCover <==> up && less
            }
        },
{
}

/// The ratios now are those of the newest aligned instant, none where there is none, and the
/// market is crowded as the shortest window says.
pub proof fn law_ratios_now(
    view: LongShortRatioIndicatorView,
    aligned: Seq<AlignedRatioPoint>,
    as_of_ts: Option<i64>,
    measures: Seq<RatioMeasure>,
)
    requires
        is_ratio_view(view, aligned, as_of_ts, measures),
    ensures
        view.as_of_ts == as_of_ts,
        view.by_window@.len() == 5,
        view.global_account_ratio is Some <==> aligned.len() > 0,
        view.top_account_ratio is Some <==> aligned.len() > 0,
        view.top_position_ratio is Some <==> aligned.len() > 0,
        aligned.len() > 0 ==> {
            let newest = aligned[aligned.len() - 1];
            &&& view.global_account_ratio->0 == newest.global_account
            &&& view.top_account_ratio->0 == newest.top_account
            &&& view.top_position_ratio->0 == newest.top_position
        },
        view.crowding_state_current == view.by_window@[0].crowding_state,
        aligned.len() <= 1 ==> view.crowding_state_current is Balanced,
{
    let first = view.by_window@[0];
    law_ratio_window(
        first,
        aligned,
        spec_windows()[0].0,
        spec_windows()[0].1,
        spec_windows()[0].2,
        measures[0],
    );
}

/// Each relation of price and open interest has a name of its own.
pub proof fn law_relation_names(r: PriceOiRelation)
    ensures
        r.spec_name() == "leveraged_long_build"@ <==> r is LeveragedLongBuild,
        r.spec_name() == "fresh_short_build"@ <==> r is FreshShortBuild,
        r.spec_name() == "long_unwind"@ <==> r is LongUnwind,
        r.spec_name() == "short_cover"@ <==> r is ShortCover,
        r.spec_name() == "neutral"@ <==> r is Neutral,
{
    reveal_strlit("leveraged_long_build");
    reveal_strlit("fresh_short_build");
    reveal_strlit("long_unwind");
    reveal_strlit("short_cover");
    reveal_strlit("neutral");
    assert("leveraged_long_build"@.len() == 20 && "leveraged_long_build"@[0] == 'l');
    assert("fresh_short_build"@.len() == 17 && "fresh_short_build"@[0] == 'f');
    assert("long_unwind"@.len() == 11 && "long_unwind"@[0] == 'l');
    assert("short_cover"@.len() == 11 && "short_cover"@[0] == 's');
    assert("neutral"@.len() == 7 && "neutral"@[0] == 'n');
}

/// Each state of crowding has a name of its own.
pub proof fn law_crowding_names(c: CrowdingState)
    ensures
        c.spec_name() == "long_crowding_unwind"@ <==> c is LongCrowdingUnwind,
        c.spec_name() == "crowded_long"@ <==> c is CrowdedLong,
        c.spec_name() == "short_crowding_unwind"@ <==> c is ShortCrowdingUnwind,
        c.spec_name() == "crowded_short"@ <==> c is CrowdedShort,
        c.spec_name() == "balanced"@ <==> c is Balanced,
{
    reveal_strlit("long_crowding_unwind");
    reveal_strlit("crowded_long");
    reveal_strlit("short_crowding_unwind");
    reveal_strlit("crowded_short");
    reveal_strlit("balanced");
    assert("long_crowding_unwind"@.len() == 20 && "long_crowding_unwind"@[0] == 'l');
    assert("crowded_long"@.len() == 12 && "crowded_long"@[0] == 'c');
    assert("short_crowding_unwind"@.len() == 21 && "short_crowding_unwind"@[0] == 's');
    assert("crowded_short"@.len() == 13 && "crowded_short"@[0] == 'c');
    assert("balanced"@.len() == 8 && "balanced"@[0] == 'b');
}

/// Each regime of volatility has a name of its own.
pub proof fn law_regime_names(r: IvRegime)
    ensures
        r.spec_name() == "elevated"@ <==> r is Elevated,
        r.spec_name() == "compressed"@ <==> r is Compressed,
        r.spec_name() == "neutral"@ <==> r is Neutral,
        r.spec_name() == "unclear"@ <==> r is Unclear,
{
    reveal_strlit("elevated");
    reveal_strlit("compressed");
    reveal_strlit("neutral");
    reveal_strlit("unclear");
    assert("elevated"@.len() == 8 && "elevated"@[0] == 'e');
    assert("compressed"@.len() == 10 && "compressed"@[0] == 'c');
    assert("neutral"@.len() == 7 && "neutral"@[0] == 'n');
    assert("unclear"@.len() == 7 && "unclear"@[0] == 'u');
}

} // verus!
