use chrono::{DateTime, Utc};
use indicator_engine::clock::{DAY_US, MINUTE_US};
use indicator_engine::cvd::{
    aggregate_bars, aggregate_recent_window, align_bar_end, build_current_window_payload,
    build_partial_window, ceil_day_boundary, classify_partial_regime, dual_pairs,
    floor_day_boundary, has_partial_window, likely_driver, previous_rows, recent_from, recent_rows,
    spot_drives, window_starts, windows, z_lookback, CvdMinute, I14CvdPack, Slope,
};
use indicator_engine::order::{order_key, Key};

fn key(x: f64) -> Key {
    order_key(x.to_bits())
}

fn at(text: &str) -> i64 {
    DateTime::parse_from_rfc3339(text).expect("parse ts").with_timezone(&Utc).timestamp_micros()
}

fn minute(ts_bucket: i64) -> CvdMinute {
    CvdMinute {
        ts_bucket,
        open: Some(key(100.0)),
        high: Some(key(101.0)),
        low: Some(key(99.0)),
        close: Some(key(100.0)),
        last: Some(key(100.0)),
    }
}

fn slope(x: f64) -> Slope {
    Slope { at: key(x), well_above: key(x.abs() * 1.5), well_below: key(x.abs() * 0.5) }
}

fn sum(deltas: &[f64], places: &[usize]) -> f64 {
    places.iter().map(|&i| deltas[i]).sum()
}

#[test]
fn partial_window_uses_recent_5m_regime_detection() {
    assert_eq!(
        classify_partial_regime(Some(key(-10.0)), Some(slope(12.0)), 8).name(),
        "reversal_to_selling"
    );
    assert_eq!(
        classify_partial_regime(Some(key(15.0)), Some(slope(5.0)), 8).name(),
        "accelerating"
    );
    assert_eq!(
        classify_partial_regime(Some(key(1.0)), Some(slope(5.0)), 8).name(),
        "decelerating"
    );
}

#[test]
fn partial_regimes_of_the_other_kinds() {
    let name = |recent: Option<f64>, prev: Option<f64>, minutes: usize| {
        classify_partial_regime(recent.map(key), prev.map(slope), minutes).name()
    };
    assert_eq!(name(Some(10.0), Some(-12.0), 8), "reversal_to_buying");
    assert_eq!(name(Some(5.0), Some(5.0), 8), "steady");
    assert_eq!(name(Some(5.0), Some(0.0), 8), "steady");
    assert_eq!(name(Some(5.0), Some(5.0), 5), "insufficient_data");
    assert_eq!(name(None, Some(5.0), 8), "insufficient_data");
    assert_eq!(name(Some(-15.0), Some(-5.0), 6), "accelerating");
}

#[test]
fn cvd_pack_windows_include_5m_confirmation_window() {
    assert!(windows().iter().any(|(label, mins)| *label == "5m" && *mins == 5));
}

#[test]
fn partial_window_keeps_full_15m_recent_series_and_sums_incrementally() {
    let rows = [
        ("2026-03-26T03:30:00Z", 10.0, 1.0),
        ("2026-03-26T03:31:00Z", 12.0, 2.0),
        ("2026-03-26T03:32:00Z", 11.0, 3.0),
        ("2026-03-26T03:33:00Z", 10.0, 4.0),
        ("2026-03-26T03:34:00Z", 8.0, 5.0),
        ("2026-03-26T03:35:00Z", -5.0, -1.0),
        ("2026-03-26T03:36:00Z", -6.0, -2.0),
        ("2026-03-26T03:37:00Z", -7.0, -3.0),
        ("2026-03-26T03:38:00Z", -8.0, -4.0),
        ("2026-03-26T03:39:00Z", -9.0, -5.0),
    ];
    let futures: Vec<CvdMinute> = rows.iter().map(|r| minute(at(r.0))).collect();
    let spot = futures.clone();
    let deltas: Vec<f64> = rows.iter().map(|r| r.1).collect();

    let value = build_partial_window(&futures, &spot, at("2026-03-26T03:39:00Z"), 15)
        .expect("partial window");

    assert_eq!(value.minutes.len(), 10);
    assert_eq!(value.window_end - value.window_start, 15 * MINUTE_US);
    assert_eq!(value.minutes.len() - value.listed_from, 10);
    assert_eq!(sum(&deltas, &value.minutes), 16.0);
    let recent = recent_from(value.minutes.len(), 5);
    assert_eq!(sum(&deltas, &value.minutes[recent..]), -35.0);
    let (a, b) = recent_rows(value.minutes.len(), 5).expect("recent rows");
    let (c, d) = previous_rows(value.minutes.len(), 5).expect("earlier rows");
    let recent_mean = sum(&deltas, &value.minutes[a..b]) / 5.0;
    let earlier_mean = sum(&deltas, &value.minutes[c..d]) / 5.0;
    assert_eq!(
        classify_partial_regime(
            Some(key(recent_mean)),
            Some(slope(earlier_mean)),
            value.minutes.len()
        )
        .name(),
        "reversal_to_selling"
    );
    assert_eq!(
        futures[value.minutes[value.listed_from]].ts_bucket,
        at("2026-03-26T03:30:00+00:00")
    );
    assert_eq!(value.spot, (0..10).map(Some).collect::<Vec<Option<usize>>>());
}

#[test]
fn partial_window_lists_its_last_minutes_only() {
    let end = at("2026-03-26T03:39:00Z");
    let futures: Vec<CvdMinute> = (0..40).map(|i| minute(end - (39 - i) * MINUTE_US)).collect();
    let value = build_partial_window(&futures, &[], end, 240).expect("partial window");
    assert_eq!(value.minutes.len(), 40);
    assert_eq!(value.listed_from, 25);
    assert_eq!(value.spot, vec![None; 40]);
    assert!(build_partial_window(&[], &futures, end, 240).is_none());
}

#[test]
fn aggregate_bars_30d_uses_full_recent_30d_history() {
    let interval_mins = 43_200i64;
    let boundary = interval_mins * MINUTE_US * 3;
    let ts_bucket = boundary - MINUTE_US;
    let start = boundary - interval_mins * MINUTE_US;
    let history: Vec<CvdMinute> =
        (0..interval_mins).map(|offset| minute(start + offset * MINUTE_US)).collect();
    let deltas = vec![1.0; history.len()];

    let bars = aggregate_bars(&history, ts_bucket, interval_mins);
    let latest = bars.last().expect("latest 30d bar");

    assert_eq!(bars.len(), 1);
    assert_eq!(sum(&deltas, &latest.parts), interval_mins as f64);
    let starts = window_starts(&bars, interval_mins);
    let window: f64 = bars[starts[0]..=0].iter().map(|b| sum(&deltas, &b.parts)).sum();
    assert_eq!(window, interval_mins as f64);
}

#[test]
fn recent_window_snapshot_uses_current_recent_n_minutes() {
    let ts_bucket = at("2026-03-26T03:39:00Z");
    let window_end = ts_bucket + MINUTE_US;
    let window_start = window_end - 5 * MINUTE_US;
    let history = vec![
        minute(at("2026-03-26T03:33:00Z")),
        minute(at("2026-03-26T03:35:00Z")),
        minute(at("2026-03-26T03:36:00Z")),
        minute(at("2026-03-26T03:37:00Z")),
        minute(at("2026-03-26T03:39:00Z")),
    ];
    let deltas = [1.0, 2.0, 3.0, 4.0, 5.0];

    let point =
        aggregate_recent_window(&history, window_start, window_end).expect("current window");
    assert_eq!(point.parts.len(), 4);
    assert_eq!(point.ts, window_end);
    assert_eq!(sum(&deltas, &point.parts), 14.0);
}

#[test]
fn current_window_payload_preserves_legacy_cvd_alias_for_snapshot() {
    let ts_bucket = at("2026-03-26T03:39:00Z");
    let futures: Vec<CvdMinute> = (0..5).map(|i| minute(ts_bucket - (4 - i) * MINUTE_US)).collect();
    let spot = futures.clone();
    let delta_fut = [10.0, 20.0, 30.0, 40.0, 50.0];
    let delta_spot = [1.0, 2.0, 3.0, 4.0, 5.0];

    let payload = build_current_window_payload(&futures, &spot, ts_bucket, 5);
    assert!(payload.is_ready);
    let fut = payload.fut.expect("futures point");
    let spot_bar = payload.spot.expect("spot point");
    assert_eq!(sum(&delta_fut, &fut.parts), 150.0);
    assert_eq!(sum(&delta_spot, &spot_bar.parts), 15.0);
    let series = payload.compact_series;
    assert_eq!(series.points.len(), 5);
    assert_eq!(series.minute_points, 5);
    assert_eq!(series.day_points, 0);
    let through: f64 = series.points.iter().map(|p| sum(&delta_fut, &p.parts_fut)).sum();
    assert_eq!(through, 150.0);
}

#[test]
fn current_window_payload_30d_compacts_to_edge_minutes_plus_full_days() {
    let interval_mins = 43_200i64;
    let ts_bucket = at("2026-04-03T11:59:00Z");
    let window_end = ts_bucket + MINUTE_US;
    let window_start = window_end - interval_mins * MINUTE_US;
    let first_full_day_start = ceil_day_boundary(window_start);
    let last_full_day_start = floor_day_boundary(window_end);
    let futures: Vec<CvdMinute> =
        (0..interval_mins).map(|offset| minute(window_start + offset * MINUTE_US)).collect();
    let spot = futures.clone();
    let delta_fut = vec![1.0; futures.len()];
    let delta_spot = vec![2.0; spot.len()];

    let payload = build_current_window_payload(&futures, &spot, ts_bucket, interval_mins);
    let series = &payload.compact_series;
    let expected_minute_points = ((first_full_day_start - window_start) / MINUTE_US) as usize
        + ((window_end - last_full_day_start) / MINUTE_US) as usize;
    let expected_day_points = ((last_full_day_start - first_full_day_start) / DAY_US) as usize;

    assert_eq!(series.minute_points, expected_minute_points);
    assert_eq!(series.day_points, expected_day_points);
    assert_eq!(series.points.len(), expected_minute_points + expected_day_points);
    let fut = payload.fut.as_ref().expect("futures point");
    let spot_bar = payload.spot.as_ref().expect("spot point");
    assert_eq!(sum(&delta_fut, &fut.parts), interval_mins as f64);
    assert_eq!(sum(&delta_spot, &spot_bar.parts), (interval_mins * 2) as f64);
    let fut_through: f64 = series.points.iter().map(|p| sum(&delta_fut, &p.parts_fut)).sum();
    let spot_through: f64 = series.points.iter().map(|p| sum(&delta_spot, &p.parts_spot)).sum();
    assert_eq!(fut_through, interval_mins as f64);
    assert_eq!(spot_through, (interval_mins * 2) as f64);
    assert!(series.points.iter().any(|p| p.is_day));
}

#[test]
fn current_window_counts_missing_minutes() {
    let ts_bucket = at("2026-03-26T03:39:00Z");
    let futures: Vec<CvdMinute> = (0..3).map(|i| minute(ts_bucket - (2 - i) * MINUTE_US)).collect();
    let payload = build_current_window_payload(&futures, &[], ts_bucket, 5);
    assert!(!payload.is_ready);
    assert!(payload.spot.is_none());
    assert_eq!(payload.observed_minutes_fut, 3);
    assert_eq!(payload.missing_minutes_fut, 2);
    assert_eq!(payload.missing_minutes_spot, 5);
}

#[test]
fn bars_close_on_their_boundaries() {
    let t = at("2026-03-26T03:39:00Z");
    assert_eq!(align_bar_end(t, 15), at("2026-03-26T03:45:00Z"));
    assert_eq!(align_bar_end(at("2026-03-26T03:45:00Z"), 15), at("2026-03-26T03:45:00Z"));
    assert_eq!(floor_day_boundary(t), at("2026-03-26T00:00:00Z"));
    assert_eq!(ceil_day_boundary(t), at("2026-03-27T00:00:00Z"));
    assert_eq!(ceil_day_boundary(at("2026-03-26T00:00:00Z")), at("2026-03-26T00:00:00Z"));
}

#[test]
fn bars_take_prices_from_their_minutes() {
    let start = at("2026-03-26T03:30:00Z");
    let mut history: Vec<CvdMinute> = (0..5).map(|i| minute(start + i * MINUTE_US)).collect();
    history[0].open = Some(key(98.0));
    history[2].high = Some(key(107.0));
    history[3].low = Some(key(90.0));
    history[4].close = Some(key(103.0));
    let bars = aggregate_bars(&history, start + 4 * MINUTE_US, 5);
    assert_eq!(bars.len(), 1);
    assert_eq!(bars[0].ts, start + 5 * MINUTE_US);
    assert_eq!(
        (bars[0].open, bars[0].high, bars[0].low, bars[0].close),
        (key(98.0), key(107.0), key(90.0), key(103.0))
    );
    assert_eq!(bars[0].parts, vec![0, 1, 2, 3, 4]);
    assert!(aggregate_bars(&history, start + 3 * MINUTE_US, 5).is_empty());
}

#[test]
fn pairs_and_lookbacks() {
    let start = at("2026-03-26T03:30:00Z");
    let history: Vec<CvdMinute> = (0..15).map(|i| minute(start + i * MINUTE_US)).collect();
    let fut = aggregate_bars(&history, start + 14 * MINUTE_US, 5);
    let spot = aggregate_bars(&history[5..], start + 14 * MINUTE_US, 5);
    assert_eq!(fut.len(), 3);
    assert_eq!(dual_pairs(&fut, &spot), vec![(1, 0), (2, 1)]);
    assert!(has_partial_window(15) && has_partial_window(240) && has_partial_window(1440));
    assert!(!has_partial_window(60));
    assert_eq!(z_lookback(0), None);
    assert_eq!(I14CvdPack.code(), "cvd_pack");
}

#[test]
fn the_larger_flow_drives() {
    assert!(spot_drives(key(1.0), key(-2.0)));
    assert!(!spot_drives(key(3.0), key(-2.0)));
    assert_eq!(likely_driver(key(1.0), key(2.0)), "spot");
    assert_eq!(likely_driver(key(3.0), key(2.0)), "futures");
}

#[test]
fn compact_series_counts_the_minutes_of_its_window() {
    let ts_bucket = at("2026-04-03T11:59:00Z");
    let window_end = ts_bucket + MINUTE_US;
    for minutes in [1, 90, 1440, 4320, 10_080] {
        let first = window_end - minutes * MINUTE_US;
        let rows: Vec<CvdMinute> = (0..minutes).map(|i| minute(first + i * MINUTE_US)).collect();
        let series =
            build_current_window_payload(&rows, &rows[1..], ts_bucket, minutes).compact_series;
        assert_eq!((series.minute_points + 1440 * series.day_points) as i64, minutes);
        assert_eq!(series.points.len(), series.minute_points + series.day_points);
        assert_eq!(series.points.last().expect("point").ts, window_end);
        assert!(series.points.windows(2).all(|w| w[0].ts < w[1].ts));
        let mut fut: Vec<usize> =
            series.points.iter().flat_map(|p| p.parts_fut.iter().copied()).collect();
        fut.sort_unstable();
        assert_eq!(fut, (0..minutes as usize).collect::<Vec<usize>>());
        let spot: usize = series.points.iter().map(|p| p.parts_spot.len()).sum();
        assert_eq!(spot as i64, minutes - 1);
    }
}

#[test]
fn bars_hold_the_minutes_of_their_interval() {
    let start = at("2026-03-26T03:38:00Z");
    let history: Vec<CvdMinute> = (0..40).map(|i| minute(start + i * MINUTE_US)).collect();
    let ts_bucket = start + 35 * MINUTE_US;
    let bars = aggregate_bars(&history, ts_bucket, 15);
    assert_eq!(bars.len(), 2);
    for (b, bar) in bars.iter().enumerate() {
        assert_eq!(bar.ts % (15 * MINUTE_US), 0);
        assert!(bar.ts <= ts_bucket + MINUTE_US);
        for (i, row) in history.iter().enumerate() {
            let inside = bar.ts - 15 * MINUTE_US <= row.ts_bucket && row.ts_bucket < bar.ts;
            assert_eq!(bar.parts.contains(&i), inside);
        }
        assert_eq!(window_starts(&bars, 15)[b], b);
    }
}

#[test]
fn the_report_has_every_window() {
    let start = at("2026-03-26T03:30:00Z");
    let history: Vec<CvdMinute> = (0..32).map(|i| minute(start + i * MINUTE_US)).collect();
    let ts = start + 31 * MINUTE_US;
    let report = I14CvdPack.evaluate(&history, &history[2..], ts, key(-2.0), key(1.0));
    assert_eq!(report.by_window.len(), 8);
    assert!(!report.spot_drives);
    assert_eq!(report.likely_driver, "futures");
    for (w, (label, mins)) in report.by_window.iter().zip(windows()) {
        assert_eq!((w.label, w.minutes), (label, mins));
        assert_eq!(w.fut, aggregate_bars(&history, ts, mins));
        assert_eq!(w.spot, aggregate_bars(&history[2..], ts, mins));
        assert_eq!(w.partial.is_some(), has_partial_window(mins));
        let current = build_current_window_payload(&history, &history[2..], ts, mins);
        assert_eq!(w.current.observed_minutes_fut, current.observed_minutes_fut);
        assert_eq!(w.current.window_start, current.window_start);
    }
    assert_eq!(report.by_window[1].partial.as_ref().map(|p| p.minutes.len()), Some(2));
}
