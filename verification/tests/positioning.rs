use indicator_engine::clock::MINUTE_US;
use indicator_engine::grouping::gather;
use indicator_engine::order::{order_key, Key, Price, Quote};
use indicator_engine::positioning::{
    align_ratio_series, build_long_short_ratio_view, build_open_interest_view,
    build_options_surface_view, classify_atm_iv_regime, classify_crowding_state,
    classify_price_oi_relation, compared_changes, compared_stretches, compute_long_short_window,
    compute_open_interest_window, compute_options_surface_window, interval_endpoints,
    sample_windows, AlignedRatioPoint, CrowdingState, CurrentMeasure, CurrentOpenInterest,
    I25OpenInterest, I26LongShortRatios, I27OptionsSurface, IvRegime, LongShortRatioPoint,
    OpenInterestMeasure, OpenInterestPoint, OptionsSurfacePoint, PriceOiRelation, RatioChanges,
    RatioMeasure, SurfaceMeasure,
};
use indicator_engine::rvwap::RvwapMinute;
use indicator_engine::windows::{
    coverage, earlier_window, newest_before_last, previous_close, rows_within, window_rows,
};

fn key(x: f64) -> Key {
    order_key(x.to_bits())
}

fn pct(start: f64, end: f64) -> f64 {
    (end - start) / start
}

fn interest(values: &[(f64, f64)]) -> Vec<OpenInterestPoint> {
    values
        .iter()
        .map(|(v, p)| OpenInterestPoint { value: key(*v), reference_price: Some(key(*p)) })
        .collect()
}

fn interest_measure(values: &[(f64, f64)], count: usize) -> OpenInterestMeasure {
    let n = values.len();
    let (a, b) = (n - 1 - count, n - 1);
    let change = pct(values[a].0, values[b].0);
    let changes: Vec<f64> = (count..n).map(|e| pct(values[e - count].0, values[e].0)).collect();
    let mean = changes.iter().sum::<f64>() / changes.len() as f64;
    let variance =
        changes.iter().map(|c| (c - mean) * (c - mean)).sum::<f64>() / changes.len() as f64;
    let earlier = if a >= count { pct(values[a - count].0, values[a].0) } else { 0.0 };
    OpenInterestMeasure {
        delta_abs: key(values[b].0 - values[a].0),
        delta_pct: key(change),
        log_return: key((values[b].0 / values[a].0).ln()),
        price_delta_pct: key(pct(values[a].1, values[b].1)),
        accel: key(change - earlier),
        variance: key(variance),
        zscore: key((change - mean) / variance.sqrt()),
    }
}

#[test]
fn open_interest_windows_are_measured_from_their_ends() {
    let values = [(100.0, 10.0), (110.0, 11.0), (99.0, 12.0), (120.0, 13.0), (150.0, 14.0)];
    let series = interest(&values);
    let measure = interest_measure(&values, 1);
    let metrics = compute_open_interest_window(&series, "5m", 5, 1, &measure);
    assert!(metrics.is_ready);
    assert_eq!(metrics.samples_used, 1);
    assert_eq!(metrics.oi_start, Some(key(120.0)));
    assert_eq!(metrics.oi_end, Some(key(150.0)));
    assert_eq!(metrics.oi_delta_abs, Some(key(30.0)));
    assert_eq!(metrics.oi_delta_pct, Some(key(0.25)));
    assert_eq!(metrics.price_start, Some(key(13.0)));
    assert_eq!(metrics.oi_zscore, Some(measure.zscore));
    assert_eq!(metrics.oi_accel, Some(measure.accel));
    assert_eq!(metrics.state, PriceOiRelation::LeveragedLongBuild);
    assert_eq!(metrics.price_oi_relation, metrics.state);
    let short = compute_open_interest_window(&series[..1], "5m", 5, 1, &measure);
    assert!(!short.is_ready);
    assert_eq!(short.state.name(), "neutral");
    assert_eq!(short.oi_end, None);
    let pair = compute_open_interest_window(&series[..2], "5m", 5, 1, &measure);
    assert_eq!(pair.oi_accel, None);
    assert_eq!(pair.oi_zscore, None);
    assert_eq!(compared_changes(&series[..3], 1), None);
    assert_eq!(compared_changes(&series, 1), Some(vec![1, 2, 3, 4]));
}

#[test]
fn an_empty_start_has_no_relative_change() {
    let series = interest(&[(0.0, 10.0), (0.0, 11.0), (0.0, 12.0), (5.0, 13.0)]);
    let measure = OpenInterestMeasure {
        delta_abs: key(5.0),
        delta_pct: key(1.0),
        log_return: key(1.0),
        price_delta_pct: key(0.1),
        accel: key(1.0),
        variance: key(1.0),
        zscore: key(1.0),
    };
    let metrics = compute_open_interest_window(&series, "5m", 5, 1, &measure);
    assert_eq!(metrics.oi_delta_abs, Some(key(5.0)));
    assert_eq!(metrics.oi_delta_pct, None);
    assert_eq!(metrics.oi_log_return, None);
    assert_eq!(metrics.oi_zscore, None);
    assert_eq!(metrics.state, PriceOiRelation::Neutral);
}

#[test]
fn price_and_open_interest_tell_who_moves() {
    let name = |p: Option<f64>, o: Option<f64>| {
        classify_price_oi_relation(p.map(key), o.map(key)).name()
    };
    assert_eq!(name(Some(0.1), Some(0.1)), "leveraged_long_build");
    assert_eq!(name(Some(-0.1), Some(0.1)), "fresh_short_build");
    assert_eq!(name(Some(-0.1), Some(-0.1)), "long_unwind");
    assert_eq!(name(Some(0.1), Some(-0.1)), "short_cover");
    assert_eq!(name(None, Some(0.1)), "neutral");
    assert_eq!(name(Some(1e-9), Some(0.1)), "neutral");
}

#[test]
fn the_open_interest_view_compares_now_with_the_newest_sample() {
    let series = interest(&[(100.0, 10.0), (110.0, 11.0)]);
    let measure = interest_measure(&[(100.0, 10.0), (110.0, 11.0)], 1);
    let current = CurrentOpenInterest {
        contracts: key(7.0),
        mark_price: Some(key(12.0)),
        value: Some(key(121.0)),
    };
    let now = CurrentMeasure {
        delta_abs: key(11.0),
        delta_pct: key(0.1),
        price_pct: key(pct(11.0, 12.0)),
    };
    let view = build_open_interest_view(&series, Some(current), Some(5), &now, &[measure; 5]);
    assert_eq!(view.as_of_ts, Some(5));
    assert_eq!(view.current_delta_abs, Some(key(11.0)));
    assert_eq!(view.current_delta_pct, Some(key(0.1)));
    assert_eq!(view.current_state.name(), "leveraged_long_build");
    assert_eq!(view.by_window.len(), 5);
    assert!(view.by_window[0].is_ready && !view.by_window[1].is_ready);
    let absent = build_open_interest_view(&series, None, None, &now, &[measure; 5]);
    assert_eq!(absent.current_delta_abs, None);
    assert_eq!(absent.current_state.name(), "neutral");
    assert_eq!(I25OpenInterest.code(), "open_interest");
    assert_eq!(sample_windows()[4], ("3d", 4320, 864));
    assert_eq!(interval_endpoints(10, 3), Some((6, 9)));
    assert_eq!(interval_endpoints(3, 3), None);
    assert_eq!(interval_endpoints(3, 0), None);
}

fn ratio(ts_bucket: i64, x: f64) -> LongShortRatioPoint {
    LongShortRatioPoint { ts_bucket, long_short_ratio: key(x) }
}

#[test]
fn ratio_series_are_aligned_on_common_instants() {
    let global = [ratio(3, 1.3), ratio(1, 1.1), ratio(2, 1.2), ratio(1, 1.15)];
    let account = [ratio(1, 2.1), ratio(3, 2.3)];
    let position = [ratio(1, 3.1), ratio(2, 3.2), ratio(3, 3.3)];
    let aligned = align_ratio_series(&global, &account, &position);
    assert_eq!(
        aligned,
        vec![
            AlignedRatioPoint {
                ts_bucket: 1,
                global_account: key(1.15),
                top_account: key(2.1),
                top_position: key(3.1),
            },
            AlignedRatioPoint {
                ts_bucket: 3,
                global_account: key(1.3),
                top_account: key(2.3),
                top_position: key(3.3),
            },
        ]
    );
}

#[test]
fn crowding_is_told_from_ratios_and_their_changes() {
    let point = |g: f64, a: f64, p: f64| AlignedRatioPoint {
        ts_bucket: 0,
        global_account: key(g),
        top_account: key(a),
        top_position: key(p),
    };
    let changes = |x: f64| RatioChanges {
        global: key(x),
        top_account: key(x),
        top_position: key(x),
    };
    let state = |e: AlignedRatioPoint, x: f64| classify_crowding_state(&e, &changes(x));
    assert_eq!(state(point(1.1, 1.2, 1.3), 0.1), CrowdingState::CrowdedLong);
    assert_eq!(state(point(1.1, 1.2, 1.3), -0.1), CrowdingState::LongCrowdingUnwind);
    assert_eq!(state(point(0.9, 0.8, 0.7), -0.1), CrowdingState::CrowdedShort);
    assert_eq!(state(point(0.9, 0.8, 0.7), 0.1), CrowdingState::ShortCrowdingUnwind);
    assert_eq!(state(point(1.02, 1.2, 1.3), 0.1), CrowdingState::Balanced);
    assert_eq!(CrowdingState::LongCrowdingUnwind.name(), "long_crowding_unwind");
}

#[test]
fn ratio_windows_and_view() {
    let aligned: Vec<AlignedRatioPoint> = (0..5)
        .map(|i| AlignedRatioPoint {
            ts_bucket: i,
            global_account: key(1.1 + i as f64 * 0.01),
            top_account: key(1.3),
            top_position: key(1.4),
        })
        .collect();
    let measure = RatioMeasure {
        changes: RatioChanges { global: key(0.01), top_account: key(0.0), top_position: key(0.0) },
        global_log: key(1.14f64.ln()),
        top_account_log: key(1.3f64.ln()),
        top_position_log: key(1.4f64.ln()),
        account_gap: key(0.16),
        position_gap: key(0.26),
        stretch: key(0.56),
        variance: key(0.5),
        zscore: key(1.5),
    };
    let metrics = compute_long_short_window(&aligned, "5m", 5, 1, &measure);
    assert!(metrics.is_ready);
    assert_eq!(metrics.global_ratio_latest, Some(aligned[4].global_account));
    assert_eq!(metrics.global_ratio_change, Some(key(0.01)));
    assert_eq!(metrics.global_ratio_log, Some(measure.global_log));
    assert_eq!(metrics.crowding_zscore, Some(key(1.5)));
    assert_eq!(metrics.crowding_state, CrowdingState::CrowdedLong);
    let mut still = measure;
    still.variance = key(0.0);
    assert_eq!(compute_long_short_window(&aligned, "5m", 5, 1, &still).crowding_zscore, None);
    assert_eq!(compared_stretches(5, 1), Some((1, 5)));
    assert_eq!(compared_stretches(100, 1), Some((40, 100)));
    assert_eq!(compared_stretches(3, 1), None);
    let view = build_long_short_ratio_view(&aligned, Some(9), &[measure; 5]);
    assert_eq!(view.as_of_ts, Some(9));
    assert_eq!(view.top_account_ratio, Some(key(1.3)));
    assert_eq!(view.crowding_state_current, CrowdingState::CrowdedLong);
    assert_eq!(view.by_window.len(), 5);
    let empty = build_long_short_ratio_view(&[], None, &[measure; 5]);
    assert_eq!(empty.global_account_ratio, None);
    assert_eq!(empty.crowding_state_current, CrowdingState::Balanced);
    assert_eq!(I26LongShortRatios.code(), "long_short_ratios");
}

fn surface(front: Option<f64>, proxy: Option<f64>) -> OptionsSurfacePoint {
    OptionsSurfacePoint {
        front_expiry_ts: Some(100),
        second_expiry_ts: None,
        atm_strike_front: Some(key(2000.0)),
        atm_iv_front: front.map(key),
        atm_iv_second: None,
        atm_iv_30d_proxy: proxy.map(key),
        rr_25d_front: Some(key(0.01)),
        rr_25d_second: None,
        skew_state: "put_skew".to_string(),
        term_structure_state: "contango".to_string(),
    }
}

fn surface_measure(front: f64, proxy: f64, before: f64) -> SurfaceMeasure {
    SurfaceMeasure {
        front_minus_proxy: key(front - proxy),
        proxy_minus_front: key(proxy - front),
        atm_iv_front_change: key(front - before),
        rr_25d_front_change: key(0.0),
    }
}

#[test]
fn options_windows_report_their_last_sample() {
    let series = [surface(Some(0.5), Some(0.5)), surface(Some(0.6), Some(0.5))];
    let measure = surface_measure(0.6, 0.5, 0.5);
    let metrics = compute_options_surface_window(&series, "5m", 5, 1, &measure);
    assert!(metrics.is_ready);
    assert_eq!(metrics.atm_iv_regime, IvRegime::Elevated);
    assert_eq!(metrics.atm_iv_front_change, Some(key(0.6 - 0.5)));
    assert_eq!(metrics.skew_state, "put_skew");
    assert_eq!(metrics.term_structure_state, "contango");
    assert_eq!(metrics.front_expiry_ts, Some(100));
    let short = compute_options_surface_window(&series, "15m", 15, 3, &measure);
    assert!(!short.is_ready);
    assert_eq!(short.atm_iv_regime.name(), "unclear");
    assert_eq!(short.skew_state, "unclear");
    let view = build_options_surface_view(&series, Some(1), &[measure; 5]);
    assert_eq!(view.by_window.len(), 5);
    assert_eq!(view.as_of_ts, Some(1));
    assert_eq!(I27OptionsSurface.code(), "options_surface");
    let regime = |f: f64, p: f64| {
        classify_atm_iv_regime(Some(key(f)), Some(key(p)), &surface_measure(f, p, f)).name()
    };
    assert_eq!(regime(0.5, 0.6), "compressed");
    assert_eq!(regime(0.5, 0.51), "neutral");
    assert_eq!(classify_atm_iv_regime(None, Some(key(0.5)), &measure), IvRegime::Unclear);
}

fn row(ts_bucket: i64) -> RvwapMinute {
    RvwapMinute { ts_bucket, high: None, low: None, close: None, total_qty: 0 }
}

#[test]
fn rows_of_windows() {
    let rows: Vec<RvwapMinute> = (0..30).map(|i| row(i * MINUTE_US)).collect();
    assert_eq!(window_rows(&rows, 29 * MINUTE_US, 15), (15..30).collect::<Vec<usize>>());
    assert_eq!(rows_within(&rows, 5 * MINUTE_US, 8 * MINUTE_US), vec![6, 7, 8]);
    let c = coverage(15, 12);
    assert_eq!((c.requested_minutes, c.returned_minutes, c.missing_minutes), (15, 12, 3));
    assert!(!c.is_ready && coverage(15, 15).is_ready);
    assert_eq!(newest_before_last(100, 60), (39, 99));
    let (after, upto) = earlier_window(100 * MINUTE_US, 15, 1);
    assert_eq!(upto - after, 15 * MINUTE_US);
}

#[test]
fn the_previous_close_skips_the_newest_minute() {
    let p = |x: f64| Price {
        at: key(x),
        up_one: key(x + 0.01),
        down_one: key(x - 0.01),
        up_two: key(x + 0.02),
        down_two: key(x - 0.02),
    };
    let quote = |close: Option<f64>, last: Option<f64>| Quote {
        open: None,
        high: None,
        low: None,
        close: close.map(p),
        last: last.map(p),
    };
    let quotes = [
        quote(Some(1.0), None),
        quote(None, Some(2.0)),
        quote(None, None),
        quote(Some(9.0), None),
    ];
    assert_eq!(previous_close(&quotes), Some(p(2.0)));
    assert_eq!(previous_close(&quotes[..1]), None);
}

#[test]
fn places_are_gathered_by_key() {
    let groups = gather(&[Some(5), None, Some(3), Some(5)]);
    let found: Vec<(i64, Vec<usize>)> = groups.into_iter().map(|g| (g.key, g.places)).collect();
    assert_eq!(found, vec![(3, vec![2]), (5, vec![0, 3])]);
}

#[test]
fn positioning_reports_give_rows_to_the_longer_windows() {
    let series = interest(&[(100.0, 10.0), (110.0, 11.0)]);
    let measure = interest_measure(&[(100.0, 10.0), (110.0, 11.0)], 1);
    let now = CurrentMeasure { delta_abs: 0, delta_pct: 0, price_pct: 0 };
    let report = I25OpenInterest.evaluate(&series, None, Some(5), &now, &[measure; 5]);
    assert_eq!(report.rows, vec![1, 2, 3, 4]);
    assert_eq!(report.view.as_of_ts, Some(5));
    let named: Vec<&str> =
        report.rows.iter().map(|&w| report.view.by_window[w].window_label).collect();
    assert_eq!(named, vec!["15m", "4h", "1d", "3d"]);

    let global = [ratio(3, 1.3), ratio(1, 1.1), ratio(2, 1.2), ratio(1, 1.15)];
    let account = [ratio(1, 2.1), ratio(3, 2.3)];
    let position = [ratio(1, 3.1), ratio(2, 3.2), ratio(3, 3.3)];
    let ratios = I26LongShortRatios.evaluate(&global, &account, &position, None, |aligned, count| {
        RatioMeasure {
            changes: RatioChanges { global: 0, top_account: 0, top_position: 0 },
            global_log: key(count as f64),
            top_account_log: key(aligned.len() as f64),
            top_position_log: 0,
            account_gap: 0,
            position_gap: 0,
            stretch: 0,
            variance: 0,
            zscore: 0,
        }
    });
    assert_eq!(ratios.aligned, align_ratio_series(&global, &account, &position));
    assert_eq!(ratios.rows, vec![1, 2, 3, 4]);
    assert_eq!(ratios.measures.map(|m| m.global_log), [1.0, 3.0, 48.0, 288.0, 864.0].map(key));
    assert_eq!(ratios.view.by_window[0].global_ratio_log, Some(key(1.0)));
    assert_eq!(ratios.view.by_window[0].top_account_ratio_log, Some(key(2.0)));
    assert_eq!(ratios.view.global_account_ratio, Some(key(1.3)));

    let surfaces = [surface(Some(0.5), Some(0.5)), surface(Some(0.6), Some(0.5))];
    let measured = surface_measure(0.6, 0.5, 0.5);
    let options = I27OptionsSurface.evaluate(&surfaces, Some(1), &[measured; 5]);
    assert_eq!(options.rows, vec![1, 2, 3, 4]);
    assert!(options.view.by_window[0].is_ready && !options.view.by_window[1].is_ready);
}
