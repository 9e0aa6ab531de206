use chrono::{TimeZone, Utc};
use indicator_engine::avwap;
use indicator_engine::avwap::{
    anchors, avwap_7d_window_slices, avwap_lookback_start, avwap_lookback_window_slices,
    avwap_window_code, avwap_window_slices, avwap_window_snapshot, avwap_window_start, gap_places,
    AvwapMeasure, AvwapMinute, AvwapState, AvwapSync, I18Avwap, AVWAP_LOOKBACK_DAYS,
};
use indicator_engine::clock::{DAY_US, MINUTE_US};
use indicator_engine::funding::{
    compute_funding_window_metrics, in_time_order, latest_at_or_before, recent_7d_changes,
    time_weighted_avg, FundingChange, FundingState, FundingSync, I16FundingRate, Sample, Segment,
    TimeAverage,
};
use indicator_engine::order::{key_bits, order_key, Key};
use indicator_engine::pulse;
use indicator_engine::pulse::{
    intrabar_poc_from_profile, intrabar_poc_max_in_window, required_samples, rolling_window,
    spike_flags, volume_spike_lookback, HighVolumePulseState, I22HighVolumePulse, ProfileLevel,
    PulseMinute, PulsePoint, PulseSync,
};
use indicator_engine::rvwap;
use indicator_engine::rvwap::{
    collect_weighted_series, compute_stats_at, has_volume, points_to_report, typical_price_known,
    I21RvwapSigmaBands, RvwapMinute, RvwapState, RvwapSync, WeightedPoint,
};

fn key(x: f64) -> Key {
    order_key(x.to_bits())
}

fn number(k: Key) -> f64 {
    f64::from_bits(key_bits(k))
}

fn at(month: u32, day: u32, hour: u32) -> i64 {
    Utc.with_ymd_and_hms(2026, month, day, hour, 0, 0).single().expect("valid ts").timestamp_micros()
}

fn row(ts_bucket: i64, qty: f64) -> AvwapMinute {
    AvwapMinute { ts_bucket, total_qty: key(qty) }
}

fn average(prices: &[f64], from: usize, to: usize) -> f64 {
    prices[from..=to].iter().sum::<f64>() / (to - from + 1) as f64
}

fn priced_history(ts: i64) -> (Vec<AvwapMinute>, [f64; 5]) {
    let fut = vec![
        row(ts - 31 * DAY_US, 1.0),
        row(ts - 6 * DAY_US, 1.0),
        row(ts - 2 * DAY_US, 1.0),
        row(ts - DAY_US, 1.0),
        row(ts, 1.0),
    ];
    (fut, [50.0, 100.0, 200.0, 300.0, 400.0])
}

#[test]
fn avwap_series_uses_requested_window_lookback() {
    let ts = at(3, 29, 0);
    let (fut, prices) = priced_history(ts);
    let spot = fut.clone();
    let latest = |lookback: i64| {
        let series = avwap::build_series(&fut, &spot, lookback, 1);
        let point = *series.last().expect("latest point");
        average(&prices, point.from, point.at)
    };
    assert_eq!(latest(1440), 400.0);
    assert_eq!(latest(4320), 300.0);
    assert_eq!(latest(10_080), 250.0);
    assert_eq!(latest(43_200), 250.0);
}

#[test]
fn avwap_snapshot_current_windows_report_recent_n_metrics() {
    let ts = at(3, 29, 0);
    let (fut, _) = priced_history(ts);
    let spot = fut.clone();
    let measure = AvwapMeasure {
        fut_last_price: Some(key(410.0)),
        fut_mark_price: Some(key(409.0)),
        avwap_fut: Some(key(250.0)),
        avwap_spot: Some(key(250.0)),
        last_minus_fut: key(160.0),
        last_minus_spot: key(160.0),
        mark_minus_spot: key(159.0),
    };
    let observed = |lookback: i64| {
        let (fut_slice, spot_slice) = avwap_window_slices(&fut, &spot, ts, lookback);
        fut_slice.len().min(spot_slice.len())
    };
    let week =
        avwap_window_snapshot("7d", 10_080, ts - 7 * DAY_US, observed(10_080), &measure);
    assert_eq!(week.window_code, "7d");
    assert_eq!(week.observed_minutes, 4);
    assert_eq!(week.price_minus_avwap_fut, Some(key(160.0)));
    let month =
        avwap_window_snapshot("30d", 43_200, ts - 30 * DAY_US, observed(43_200), &measure);
    assert_eq!(month.window_code, "30d");
    assert!(!month.is_ready);
}

#[test]
fn avwap_default_window_slice_tracks_configured_lookback_days() {
    let end = at(3, 29, 12);
    let fut = vec![
        row(end - 8 * DAY_US, 1.0),
        row(end - 7 * DAY_US, 1.0),
        row(end - 6 * DAY_US, 1.0),
        row(end, 1.0),
    ];
    let spot = fut.clone();
    let (fut_slice, spot_slice) = avwap_lookback_window_slices(&fut, &spot, end);
    assert_eq!(fut_slice.len(), 2);
    assert_eq!(spot_slice.len(), 2);
    assert_eq!(fut_slice.first().unwrap().ts_bucket, end - 6 * DAY_US);
    assert_eq!(fut_slice.last().unwrap().ts_bucket, end);
    assert_eq!(AVWAP_LOOKBACK_DAYS, 7);
    assert_eq!(avwap_7d_window_slices(&fut, &spot, end).0, fut_slice);
}

#[test]
fn avwap_window_slices_use_requested_lookback_minutes() {
    let end = at(3, 29, 12);
    let fut = vec![
        row(end - 31 * DAY_US, 1.0),
        row(end - 29 * DAY_US, 1.0),
        row(end - 2 * DAY_US, 1.0),
        row(end - DAY_US / 2, 1.0),
        row(end, 1.0),
    ];
    let spot = fut.clone();

    let (fut_1d, _) = avwap_window_slices(&fut, &spot, end, 1440);
    assert_eq!(fut_1d.len(), 2);
    assert_eq!(fut_1d.first().unwrap().ts_bucket, end - DAY_US / 2);

    let (fut_30d, _) = avwap_window_slices(&fut, &spot, end, 43_200);
    assert_eq!(fut_30d.len(), 4);
    assert_eq!(fut_30d.first().unwrap().ts_bucket, end - 29 * DAY_US);
}

#[test]
fn avwap_window_code_formats_supported_lookbacks() {
    assert_eq!(avwap_window_code(15), "15m");
    assert_eq!(avwap_window_code(1440), "1d");
    assert_eq!(avwap_window_code(43_200), "30d");
}

#[test]
fn avwap_window_snapshot_marks_recent_n_coverage() {
    let end = at(3, 29, 12);
    let payload = avwap_window_snapshot(
        "30d",
        43_200,
        end - 30 * DAY_US,
        128,
        &AvwapMeasure {
            fut_last_price: Some(key(105.0)),
            fut_mark_price: Some(key(104.5)),
            avwap_fut: Some(key(100.0)),
            avwap_spot: Some(key(99.0)),
            last_minus_fut: key(105.0 - 100.0),
            last_minus_spot: key(105.0 - 99.0),
            mark_minus_spot: key(104.5 - 99.0),
        },
    );

    assert_eq!(payload.window_code, "30d");
    assert_eq!(payload.lookback_minutes, 43_200);
    assert_eq!(payload.observed_minutes, 128);
    assert_eq!(payload.missing_minutes, 43_072);
    assert!(!payload.is_ready);
    assert_eq!(payload.price_minus_avwap_fut, Some(key(5.0)));
    assert_eq!(payload.price_minus_spot_avwap_futmark, Some(key(5.5)));
}

#[test]
fn avwap_gap_zscore_uses_only_provided_slice() {
    let end = at(3, 29, 12);
    let mut fut: Vec<AvwapMinute> =
        (0..12).map(|i| row(end - (11 - i) * MINUTE_US, 1.0)).collect();
    let mut spot = fut.clone();
    let full = gap_places(&fut, &spot).expect("gaps");
    fut.push(row(end + MINUTE_US, 1.0));
    spot.push(row(end + MINUTE_US, 1.0));
    let with_extra = gap_places(&fut[..12], &spot[..12]).expect("gaps");
    assert_eq!(full, with_extra);
    assert_eq!(full.len(), 12);
    assert!(gap_places(&fut[..9], &spot[..9]).is_none());
    fut[3].total_qty = key(0.0);
    assert_eq!(gap_places(&fut[..12], &spot[..12]).map(|places| places.len()), Some(11));
}

#[test]
fn avwap_windows_and_anchors() {
    let ts = at(3, 29, 12);
    assert_eq!(avwap_window_start(ts, 60), ts - 60 * MINUTE_US);
    assert_eq!(avwap_window_start(ts, 0), ts - MINUTE_US);
    assert_eq!(avwap_lookback_start(ts), ts - 7 * DAY_US);
    assert!(anchors(ts, 60) && !anchors(ts + MINUTE_US, 60));
    assert_eq!(avwap::windows().len(), 7);
    assert_eq!(I18Avwap.code(), "avwap");
    let (fut, _) = priced_history(ts);
    let slices = I18Avwap.evaluate(&fut, &fut, ts);
    assert_eq!(slices.len(), 7);
}

#[test]
fn avwap_state_goes_on_where_it_stopped() {
    let start = at(3, 20, 0);
    let rows: Vec<AvwapMinute> = (0..50).map(|i| row(start + i * MINUTE_US, 1.0)).collect();
    let mut whole = AvwapState::new();
    whole.rebuild(&rows, &rows);
    let mut stepwise = AvwapState::new();
    stepwise.rebuild(&rows[..20], &rows[..20]);
    match stepwise.sync(&rows, &rows) {
        AvwapSync::Continued { fut_from, spot_from, steps } => {
            assert_eq!((fut_from, spot_from, steps.len()), (20, 20, 30));
        }
        _ => panic!("the state has seen the rows"),
    }
    for (w, (_, minutes)) in avwap::windows().into_iter().enumerate() {
        assert_eq!(stepwise.observed_minutes(w), whole.observed_minutes(w));
        assert_eq!(stepwise.observed_minutes(w), 50.min(minutes as usize));
        assert_eq!(stepwise.window_from(w), 50 - 50.min(minutes as usize));
        assert_eq!(stepwise.gaps_from(w), whole.gaps_from(w));
        assert_eq!(stepwise.series_instants(w), whole.series_instants(w));
    }
    assert_eq!(stepwise.last_ts(), Some(start + 49 * MINUTE_US));
    assert_eq!(whole.sync(&rows, &rows), AvwapSync::Nothing);
}

#[test]
fn avwap_state_forgets_after_its_lookback() {
    let start = at(3, 20, 0);
    let mut state = AvwapState::new();
    state.append_minute(&row(start, 1.0), &row(start, 0.0));
    let late = start + 7 * DAY_US;
    let step = state.append_minute(&row(late, 1.0), &row(late, 1.0));
    assert_eq!(step.dropped, 0);
    assert!(step.has_gap);
    assert_eq!(step.window_from, vec![1, 1, 1, 1, 1, 1, 0]);
    assert_eq!(state.observed_minutes(5), 1);
    assert_eq!(state.observed_minutes(6), 2);
    let later = start + 30 * DAY_US;
    let step = state.append_minute(&row(later, 1.0), &row(later, 1.0));
    assert_eq!(step.dropped, 1);
    assert_eq!(step.window_from, vec![1, 1, 1, 1, 1, 1, 0]);
    assert_eq!(state.observed_minutes(6), 2);
}

#[test]
fn avwap_codes_tell_lookbacks_apart() {
    let lookbacks = [1, 2, 5, 15, 60, 61, 120, 240, 1440, 4320, 10_080, 43_200, 43_201];
    let codes: Vec<String> = lookbacks.iter().map(|m| avwap_window_code(*m)).collect();
    for a in 0..codes.len() {
        for b in 0..a {
            assert_ne!(codes[a], codes[b]);
        }
    }
    assert_eq!(avwap_window_code(-7), avwap_window_code(1));
    assert_eq!(avwap_window_code(120), "120m");
}

#[test]
fn rvwap_weighted_stats_match_expected() {
    let ts = at(3, 5, 0);
    let price_weight = [100.0, 202.0, 410.0];
    let weight = [1.0, 2.0, 4.0];
    let square_weight = [10_000.0, 20_404.0, 42_036.0];
    let points: Vec<WeightedPoint> = (0..3)
        .map(|i| WeightedPoint {
            ts_bucket: ts + i * MINUTE_US,
            prefix_positive_samples: i as usize + 1,
        })
        .collect();

    let stats = compute_stats_at(&points, 2, 15, 2).expect("stats");
    assert_eq!((stats.start_idx, stats.end_idx, stats.sample_count), (0, 2, 3));
    let rvwap: f64 = price_weight[stats.end_idx] / weight[stats.end_idx];
    assert!((rvwap - 102.5).abs() < 1e-9);
    let sigma: f64 = (square_weight[stats.end_idx] / weight[stats.end_idx] - rvwap * rvwap).sqrt();
    assert!(sigma > 0.0);
    assert!(compute_stats_at(&points, 2, 15, 4).is_none());
    assert!(compute_stats_at(&points, 3, 15, 1).is_none());
    assert_eq!(compute_stats_at(&points, 2, 1, 1).map(|s| s.start_idx), Some(2));
}

#[test]
fn ohlcv_typical_price_matches_formula() {
    let typical = |high: Option<f64>, low: Option<f64>, close: Option<f64>| {
        let minute = RvwapMinute {
            ts_bucket: 0,
            high: high.map(key),
            low: low.map(key),
            close: close.map(key),
            total_qty: key(1.0),
        };
        if typical_price_known(&minute) {
            Some((number(minute.high?) + number(minute.low?) + number(minute.close?)) / 3.0)
        } else {
            None
        }
    };
    let p = typical(Some(12.0), Some(6.0), Some(9.0)).expect("price");
    assert!((p - 9.0).abs() < 1e-12);
    assert!(typical(Some(12.0), None, Some(9.0)).is_none());
}

#[test]
fn rvwap_window_to_minutes_supports_3d() {
    assert_eq!(rvwap::window_to_minutes("3d"), Some(4320));
}

fn weighted_minute(ts_bucket: i64, qty: f64) -> RvwapMinute {
    RvwapMinute {
        ts_bucket,
        high: Some(key(12.0)),
        low: Some(key(6.0)),
        close: Some(key(9.0)),
        total_qty: key(qty),
    }
}

#[test]
fn rvwap_state_matches_its_series() {
    let start = at(3, 20, 0);
    let mut rows: Vec<RvwapMinute> = (0..90)
        .map(|i| weighted_minute(start + i * MINUTE_US, if i % 7 == 0 { 0.0 } else { 1.0 }))
        .collect();
    rows[40].low = None;
    let mut state = RvwapState::new(vec![15, 60], vec![15, 30], 5, 10_080);
    let steps = state.rebuild(&rows);
    assert_eq!(steps.len(), 90);
    assert!(!steps[40].appended);
    let (points, places) = collect_weighted_series(&rows);
    assert_eq!(points.len(), 89);
    assert_eq!(places.len(), 89);
    assert_eq!(state.len(), points.len());
    let current = state.current_stats_by_window();
    assert_eq!(current[0], compute_stats_at(&points, 88, 15, 5));
    assert_eq!(current[1], compute_stats_at(&points, 88, 60, 5));
    assert_eq!(current[1].map(|s| s.sample_count > 0), Some(true));

    let mut stepwise = RvwapState::new(vec![15, 60], vec![15, 30], 5, 10_080);
    stepwise.rebuild(&rows[..50]);
    match stepwise.sync(&rows) {
        RvwapSync::Continued { from, steps } => assert_eq!((from, steps.len()), (50, 40)),
        _ => panic!("the state has seen the rows"),
    }
    assert_eq!(stepwise.current_stats_by_window(), current);
    assert_eq!(stepwise.last_ts(), Some(start + 89 * MINUTE_US));
}

#[test]
fn rvwap_points_are_reported_on_their_boundaries() {
    let start = at(3, 20, 0);
    let rows: Vec<RvwapMinute> =
        (0..31).map(|i| weighted_minute(start + i * MINUTE_US, 1.0)).collect();
    let (points, _) = collect_weighted_series(&rows);
    assert_eq!(points_to_report(&points, 15), vec![14, 29]);
    assert!(has_volume(key(1.0)) && !has_volume(key(0.0)));
    let codes = ["15m".to_string(), "x".to_string(), "3d".to_string()];
    let stats = I21RvwapSigmaBands.evaluate(&points, &codes, 5);
    assert_eq!(stats.len(), 2);
    assert_eq!((stats[0].0, stats[0].1), (0, 15));
    assert_eq!((stats[1].0, stats[1].1), (2, 4320));
    assert_eq!(I21RvwapSigmaBands.code(), "rvwap_sigma_bands");
}

#[test]
fn intrabar_poc_selects_max_volume_tick() {
    let levels = [
        ProfileLevel { tick: 100, total: key(1.0 + 1.0) },
        ProfileLevel { tick: 101, total: key(3.0 + 2.0) },
    ];
    let place = intrabar_poc_from_profile(&levels).expect("level");
    assert_eq!(levels[place].tick as f64 * 0.01, 1.01);
    assert!((number(levels[place].total) - 5.0).abs() < 1e-12);
    assert_eq!(intrabar_poc_from_profile(&[]), None);
}

#[test]
fn pulse_windows_and_flags() {
    assert_eq!(pulse::window_to_minutes("4h"), Some(240));
    assert_eq!(pulse::window_to_minutes("3d"), None);
    assert_eq!(spike_flags(key(2.5)), (true, false));
    assert_eq!(spike_flags(key(3.5)), (true, true));
    assert_eq!(spike_flags(key(1.5)), (false, false));
    assert_eq!(I22HighVolumePulse.code(), "high_volume_pulse");
    assert_eq!(volume_spike_lookback(0, 60, 5), None);
    assert!(required_samples(60, 5) >= 5);
}

#[test]
fn pulse_state_matches_its_series() {
    let start = at(3, 20, 0);
    let rows: Vec<PulseMinute> = (0..120)
        .map(|i| PulseMinute {
            ts_bucket: start + i * MINUTE_US,
            poc_volume: key(10.0 + ((i * 37) % 23) as f64),
        })
        .collect();
    let points: Vec<PulsePoint> =
        rows.iter().map(|r| PulsePoint { ts: r.ts_bucket, poc_volume: r.poc_volume }).collect();
    let mut state = HighVolumePulseState::new(vec![60], vec![15, 60], 5, 10_080);
    let steps = state.rebuild(&rows);
    for (i, step) in steps.iter().enumerate() {
        for (w, minutes) in [15i64, 60].into_iter().enumerate() {
            let direct = intrabar_poc_max_in_window(&points, i, minutes).map(|p| points[p]);
            assert_eq!(step.summary[w].map(|p| p.poc_volume), direct.map(|p| p.poc_volume));
        }
        assert_eq!(step.rolling_from[0], rolling_window(&points, i, 60));
    }
    let mut stepwise = HighVolumePulseState::new(vec![60], vec![15, 60], 5, 10_080);
    stepwise.rebuild(&rows[..70]);
    match stepwise.sync(&rows) {
        PulseSync::Continued { from, steps: later } => {
            assert_eq!(from, 70);
            assert_eq!(later[..], steps[70..]);
        }
        _ => panic!("the state has seen the rows"),
    }
    assert_eq!(stepwise.sync(&rows), PulseSync::Nothing);
    assert_eq!(stepwise.last_ts(), state.last_ts());
}

fn sample(ts: i64, value: f64) -> Sample {
    Sample { ts, value: Some(key(value)) }
}

#[test]
fn window_metrics_use_latest_point_within_minute() {
    let ts_bucket = at(3, 27, 8);
    let state_ts = ts_bucket + 59_001_000;
    let points = [sample(state_ts, -0.00006)];
    let marks = [sample(state_ts, 2000.0)];
    let indexes = [sample(state_ts, 1999.0)];
    let changes = [FundingChange {
        ts_change: state_ts,
        prev: Some(key(-0.00005)),
        new: key(-0.00006),
        delta: Some(key(-0.00001)),
        mark_price_at_change: Some(key(2000.0)),
    }];

    let metrics =
        compute_funding_window_metrics(&points, &marks, &indexes, &indexes, &changes, ts_bucket, 1);

    assert_eq!(metrics.funding_current, Some(key(-0.00006)));
    assert_eq!(metrics.funding_current_effective_ts, Some(state_ts));
    assert_eq!(metrics.mark_price_last_ts, Some(state_ts));
    assert_eq!(metrics.index_price_last, Some(key(1999.0)));
    assert_eq!(metrics.changes, vec![0]);
}

#[test]
fn time_weighted_averages_are_cut_into_segments() {
    let s = 1_000_000;
    let samples = [sample(0, 1.0), sample(20 * s, 3.0), sample(50 * s, 5.0)];
    match time_weighted_avg(&samples, 10 * s, 60 * s, None) {
        TimeAverage::Over(segments) => {
            assert_eq!(
                segments,
                vec![
                    Segment { value: key(1.0), millis: 10_000 },
                    Segment { value: key(3.0), millis: 30_000 },
                    Segment { value: key(5.0), millis: 10_000 },
                ]
            );
            let weighted: f64 =
                segments.iter().map(|g| number(g.value) * g.millis as f64 / 1000.0).sum();
            assert_eq!(weighted / 50.0, 3.0);
        }
        _ => panic!("the span has samples"),
    }
    assert_eq!(time_weighted_avg(&samples, 5 * s, 5 * s, None), TimeAverage::Unknown);
    assert_eq!(
        time_weighted_avg(&[], 0, s, Some(key(2.0))),
        TimeAverage::Value(key(2.0))
    );
    assert_eq!(time_weighted_avg(&[], 0, s, None), TimeAverage::Unknown);
}

#[test]
fn latest_samples_and_order() {
    let samples = [sample(0, 1.0), sample(20, 3.0), sample(50, 5.0)];
    assert_eq!(latest_at_or_before(&samples, 20), Some(sample(20, 3.0)));
    assert_eq!(latest_at_or_before(&samples, 49), Some(sample(20, 3.0)));
    assert_eq!(latest_at_or_before(&samples, -1), None);
    let mixed = [sample(50, 5.0), sample(0, 1.0), sample(20, 3.0), sample(0, 2.0)];
    assert_eq!(
        in_time_order(&mixed),
        vec![sample(0, 1.0), sample(0, 2.0), sample(20, 3.0), sample(50, 5.0)]
    );
    assert_eq!(I16FundingRate.code(), "funding_rate");
}

#[test]
fn funding_state_keeps_its_windows() {
    let start = at(3, 20, 0);
    let change = |ts: i64, new: f64| FundingChange {
        ts_change: ts,
        prev: None,
        new: key(new),
        delta: None,
        mark_price_at_change: None,
    };
    let changes: Vec<FundingChange> =
        (0..30).map(|i| change(start + i * MINUTE_US, i as f64)).collect();
    let points: Vec<Sample> = (0..30).map(|i| sample(start + i * MINUTE_US, i as f64)).collect();
    let mut state = FundingState::new();
    let last = start + 28 * MINUTE_US;
    state.rebuild(last, &changes[..29], &points[..29], &points[..29], &points[..29]);
    match state.sync(last + MINUTE_US, &changes, &points, &points, &points) {
        FundingSync::Advanced(windows) => assert!(!windows.is_empty()),
        _ => panic!("the minute follows the last one"),
    }
    let mut whole = FundingState::new();
    whole.rebuild(last + MINUTE_US, &changes, &points, &points, &points);
    for w in 0..8 {
        assert_eq!(state.window_changes(w), whole.window_changes(w));
    }
    assert_eq!(state.recent_changes(), whole.recent_changes());
    let end = last + 2 * MINUTE_US;
    assert_eq!(state.current_funding(end), Some(sample(last + MINUTE_US, 29.0)));
    assert_eq!(state.current_mark(end), whole.current_mark(end));
    assert_eq!(state.current_index(end), whole.current_index(end));
    assert_eq!(state.last_ts(), Some(last + MINUTE_US));
    assert_eq!(recent_7d_changes(&changes, last + MINUTE_US).len(), 30);
}

#[test]
fn the_funding_report_has_every_window() {
    let ts_bucket = at(3, 27, 8);
    let day = 1440 * MINUTE_US;
    let points = [sample(ts_bucket - 2 * day, 0.01), sample(ts_bucket - 30 * MINUTE_US, 0.02)];
    let marks = [sample(ts_bucket - 30 * MINUTE_US, 2000.0)];
    let changed = |ts_change: i64| FundingChange {
        ts_change,
        prev: None,
        new: key(0.02),
        delta: None,
        mark_price_at_change: None,
    };
    let changes = [
        changed(ts_bucket - 8 * day),
        changed(ts_bucket - 2 * day),
        changed(ts_bucket - 30 * MINUTE_US),
    ];
    let report = I16FundingRate.evaluate(&points, &marks, &marks, &marks, &changes, ts_bucket);
    assert_eq!(report.recent_7d, vec![1, 2]);
    assert_eq!(report.now.funding_current, Some(key(0.02)));
    assert!(report.now.changes.is_empty());
    let listed: Vec<(&str, i64, usize)> =
        report.by_window.iter().map(|w| (w.label, w.minutes, w.metrics.changes.len())).collect();
    assert_eq!(
        listed,
        vec![
            ("15m", 15, 0),
            ("1h", 60, 1),
            ("4h", 240, 1),
            ("1d", 1440, 1),
            ("3d", 4320, 2),
            ("7d", 10_080, 2),
            ("30d", 43_200, 3),
        ]
    );
    for w in &report.by_window {
        let direct = compute_funding_window_metrics(
            &points, &marks, &marks, &marks, &changes, ts_bucket, w.minutes,
        );
        assert_eq!(w.metrics.funding_twa, direct.funding_twa);
        assert_eq!(w.metrics.changes, direct.changes);
    }
}
