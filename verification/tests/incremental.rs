use chrono::{TimeZone, Utc};
use indicator_engine::avwap;
use indicator_engine::avwap::{gap_places, AvwapMinute, AvwapSync, I18Avwap};
use indicator_engine::clock::MINUTE_US;
use indicator_engine::funding::{
    compute_funding_window_metrics, latest_at_or_before, recent_7d_changes, AreaStep,
    FundingChange, FundingSync, Sample, TimeAverage,
};
use indicator_engine::incremental::{
    IncrementalIndicatorConfig, IncrementalIndicatorState, MinuteInputs,
};
use indicator_engine::order::{order_key, Key, KEY_INFINITY};
use indicator_engine::pulse::{
    intrabar_poc_max_in_window, rolling_window, PulseMinute, PulsePoint, PulseSync,
};
use indicator_engine::rvwap::{
    collect_weighted_series, compute_stats_at, points_to_report, RvwapMinute, RvwapSync,
};
use indicator_engine::tpo::{
    bin_scores, flat_scores, insert_sorted, lower_bound_keys, minute_range_bar, primary_session,
    recompute_value_area, single_print_zones, TpoMinute, TpoSessionState, TpoState, TpoStep,
    TpoSync,
};

fn key(x: f64) -> Key {
    order_key(x.to_bits())
}

fn config() -> IncrementalIndicatorConfig {
    IncrementalIndicatorConfig {
        tpo_session_windows: vec![240, 1440],
        tpo_ib_minutes: 60,
        tpo_dev_output_windows: vec![15, 60],
        rvwap_windows: vec![15, 240, 1440],
        rvwap_output_windows: vec![15, 60],
        rvwap_min_samples: 5,
        high_volume_pulse_z_windows: vec![60, 240, 1440],
        high_volume_pulse_summary_windows: vec![15, 60],
        high_volume_pulse_min_samples: 5,
        history_limit_minutes: 10_080,
    }
}

fn session_minute(ts_bucket: i64, price: f64) -> TpoMinute {
    TpoMinute {
        ts_bucket,
        open: Some(key(price - 0.2)),
        high: Some(key(price + 0.4)),
        low: Some(key(price - 0.5)),
        close: Some(key(price + 0.1)),
        last: Some(key(price)),
    }
}

/// What a session row is reported as: its instant, how many sessions took it in, and how many
/// minutes each then holds.
fn taken_in(tpo: &TpoState, row: &TpoMinute, steps: &Vec<TpoStep>) -> (i64, usize, Vec<usize>) {
    let minutes = (0..tpo.len()).map(|k| tpo.session(k).len()).collect();
    (row.ts_bucket, steps.len(), minutes)
}

#[test]
fn incremental_snapshots_match_legacy_indicators() {
    let ts_start =
        Utc.with_ymd_and_hms(2026, 3, 20, 0, 0, 0).single().expect("valid ts").timestamp_micros();
    let history_len = 480usize;
    let mut avwap_fut = Vec::new();
    let mut avwap_spot = Vec::new();
    let mut weighted = Vec::new();
    let mut volumes = Vec::new();
    let mut session_rows = Vec::new();
    let mut funding_points: Vec<Sample> = Vec::new();
    let mut mark_points = Vec::new();
    let mut index_points = Vec::new();
    let mut changes = Vec::new();
    let mut latest: Option<f64> = None;
    for idx in 0..history_len {
        let ts = ts_start + idx as i64 * MINUTE_US;
        let base_price = 100.0 + idx as f64 * 0.03;
        let fut_price = base_price + (idx % 11) as f64 * 0.02;
        let spot_price = base_price - (idx % 7) as f64 * 0.015;
        let fut_qty = 10.0 + (idx % 5) as f64;
        let spot_qty = 8.0 + (idx % 4) as f64;
        avwap_fut.push(AvwapMinute { ts_bucket: ts, total_qty: key(fut_qty) });
        avwap_spot.push(AvwapMinute { ts_bucket: ts, total_qty: key(spot_qty) });
        weighted.push(RvwapMinute {
            ts_bucket: ts,
            high: Some(key(fut_price + 0.4)),
            low: Some(key(fut_price - 0.5)),
            close: Some(key(fut_price + 0.1)),
            total_qty: key(fut_qty),
        });
        volumes.push(PulseMinute {
            ts_bucket: ts,
            poc_volume: key(fut_qty * 0.6 + fut_qty * 0.4),
        });
        session_rows.push(session_minute(ts, fut_price));
        let rate = -0.0001 + (idx % 9) as f64 * 0.00001;
        let state_ts = ts + 59_000_000;
        if latest.map(|last| (last - rate).abs() > 1e-12).unwrap_or(true) {
            changes.push(FundingChange {
                ts_change: state_ts,
                prev: latest.map(key),
                new: key(rate),
                delta: latest.map(|last| key(rate - last)),
                mark_price_at_change: Some(key(fut_price + 0.1)),
            });
        }
        latest = Some(rate);
        funding_points.push(Sample { ts: state_ts, value: Some(key(rate)) });
        mark_points.push(Sample { ts: state_ts, value: Some(key(fut_price + 0.1)) });
        index_points.push(Sample { ts: state_ts, value: Some(key(spot_price + 0.05)) });
    }
    let ts_bucket = ts_start + (history_len as i64 - 1) * MINUTE_US;
    let end = ts_bucket + MINUTE_US;

    let mut state = IncrementalIndicatorState::default();
    assert!(config().sound());
    state.configure(config());
    let inputs = MinuteInputs {
        avwap_futures: &avwap_fut,
        avwap_spot: &avwap_spot,
        rvwap: &weighted,
        pulse: &volumes,
        sessions: &session_rows,
        funding_changes: &changes,
        funding_points: &funding_points,
        mark_points: &mark_points,
        index_points: &index_points,
    };
    let step = state.rebuild(Some(ts_bucket), &inputs, taken_in).expect("configured");

    let direct = I18Avwap.evaluate(&avwap_fut, &avwap_spot, ts_bucket);
    let places = gap_places(&avwap_fut, &avwap_spot).expect("gaps");
    let last_step = match &step.avwap {
        AvwapSync::Rebuilt(steps) => steps.last().expect("step"),
        _ => panic!("a rebuild takes in every row"),
    };
    for (w, (_, minutes)) in avwap::windows().into_iter().enumerate() {
        let held = state.avwap().observed_minutes(w);
        assert_eq!(held, direct[w].0.len());
        assert_eq!(state.avwap().window_from(w), history_len - held);
        assert_eq!(last_step.window_from[w], history_len - held);
        assert_eq!(avwap_fut[history_len - held..], *direct[w].0);
        let in_window = places.iter().filter(|&&p| p >= history_len - held).count();
        assert_eq!(state.avwap().gaps_from(w), places.len() - in_window);
        let series: Vec<i64> = avwap::build_series(&avwap_fut, &avwap_spot, minutes, minutes)
            .iter()
            .map(|point| avwap_fut[point.at].ts_bucket)
            .collect();
        assert_eq!(state.avwap().series_instants(w), series);
    }

    let (points, _) = collect_weighted_series(&weighted);
    let current = state.rvwap().current_stats_by_window();
    for (w, minutes) in [15i64, 240, 1440].into_iter().enumerate() {
        assert_eq!(current[w], compute_stats_at(&points, history_len - 1, minutes, 5));
    }

    let pulse_points: Vec<PulsePoint> =
        volumes.iter().map(|v| PulsePoint { ts: v.ts_bucket, poc_volume: v.poc_volume }).collect();
    match step.pulse {
        PulseSync::Rebuilt(steps) => {
            let last = steps.last().expect("step");
            for (w, minutes) in [15i64, 60].into_iter().enumerate() {
                let direct = intrabar_poc_max_in_window(&pulse_points, history_len - 1, minutes);
                assert_eq!(
                    last.summary[w].map(|p| p.poc_volume),
                    direct.map(|p| pulse_points[p].poc_volume)
                );
            }
        }
        _ => panic!("a rebuild takes in every row"),
    }

    assert_eq!(state.funding().current_funding(end), latest_at_or_before(&funding_points, end));
    assert_eq!(state.funding().current_mark(end), latest_at_or_before(&mark_points, end));
    let areas = match &step.funding {
        FundingSync::Rebuilt(windows) => windows,
        _ => panic!("a rebuild takes in every row"),
    };
    assert_eq!(areas.len(), 8);
    for (w, minutes) in [1i64, 15, 60, 240, 1440, 4320, 10_080, 43_200].into_iter().enumerate() {
        let direct = compute_funding_window_metrics(
            &funding_points,
            &mark_points,
            &index_points,
            &index_points,
            &changes,
            ts_bucket,
            minutes,
        );
        let held: Vec<FundingChange> = direct.changes.iter().map(|&i| changes[i]).collect();
        assert_eq!(state.funding().window_changes(w), held);
        for (average, area) in
            [(&direct.funding_twa, &areas[w].funding), (&direct.mark_price_twap, &areas[w].mark)]
        {
            match (average, area) {
                (TimeAverage::Over(a), AreaStep::Whole(b)) => assert_eq!(a, b),
                _ => panic!("both average over the window"),
            }
        }
        let current = state.funding().current_funding(end).expect("funding");
        assert_eq!(direct.funding_current, current.value);
        assert_eq!(direct.funding_current_effective_ts, Some(current.ts));
        let mark = state.funding().current_mark(end).expect("mark");
        assert_eq!(direct.mark_price_last, mark.value);
        assert_eq!(direct.mark_price_last_ts, Some(mark.ts));
        let index = state.funding().current_index(end).expect("index");
        assert_eq!(direct.index_price_last, index.value);
    }
    let recent: Vec<FundingChange> =
        recent_7d_changes(&changes, ts_bucket).into_iter().map(|i| changes[i]).collect();
    assert_eq!(state.funding().recent_changes(), recent);

    match step.sessions {
        TpoSync::Rebuilt(reports) => {
            assert_eq!(reports.len(), history_len);
            for (idx, (ts, sessions, minutes)) in reports.into_iter().enumerate() {
                assert_eq!((ts, sessions), (session_rows[idx].ts_bucket, 2));
                assert_eq!(minutes, vec![idx % 240 + 1, idx + 1]);
            }
        }
        _ => panic!("a rebuild takes in every row"),
    }
    assert_eq!(state.tpo().len(), 2);
    let day = state.tpo().session(1);
    assert_eq!(day.session_start(), Some(ts_start));
    assert_eq!(day.len(), history_len);
    let four_hours = state.tpo().session(0);
    assert_eq!(four_hours.session_start(), Some(ts_start + 240 * MINUTE_US));
    assert_eq!(four_hours.len(), 240);
    let mut thresholds: Vec<Key> = vec![-KEY_INFINITY];
    thresholds.extend((0..8).map(|b| key(106.5 + b as f64)));
    let scores = bin_scores(four_hours.lows(), four_hours.highs(), &thresholds);
    assert_eq!(scores.len(), thresholds.len());
    for (b, score) in scores.iter().enumerate() {
        let touching = session_rows[240..]
            .iter()
            .filter(|r| {
                let low = r.low.expect("low");
                let high = r.high.expect("high");
                high >= thresholds[b] && thresholds.get(b + 1).map(|t| low < *t).unwrap_or(true)
            })
            .count();
        assert_eq!(*score, touching as i64);
    }
}

#[test]
fn an_unconfigured_state_does_nothing() {
    let mut state = IncrementalIndicatorState::default();
    assert_eq!((state.tpo().len(), state.rvwap().len()), (0, 0));
    assert_eq!(state.rvwap().last_ts(), None);
    let inputs = MinuteInputs {
        avwap_futures: &[],
        avwap_spot: &[],
        rvwap: &[],
        pulse: &[],
        sessions: &[],
        funding_changes: &[],
        funding_points: &[],
        mark_points: &[],
        index_points: &[],
    };
    assert!(state.rebuild(Some(0), &inputs, taken_in).is_none());
    assert!(state.on_finalized_minute(0, &inputs, taken_in).is_none());
    state.configure(config());
    assert!(state.on_finalized_minute(0, &inputs, taken_in).is_some());
    assert!(state.rebuild(None, &inputs, taken_in).is_none());
    state.reset();
    assert_eq!(state.tpo().session(0).len(), 0);
}

#[test]
fn finalized_minutes_bring_every_part_up() {
    let start = 1440 * MINUTE_US * 20_000;
    let n = 30usize;
    let ts = |i: usize| start + i as i64 * MINUTE_US;
    let averages: Vec<AvwapMinute> =
        (0..n).map(|i| AvwapMinute { ts_bucket: ts(i), total_qty: key(1.0 + i as f64) }).collect();
    let weighted: Vec<RvwapMinute> = (0..n)
        .map(|i| RvwapMinute {
            ts_bucket: ts(i),
            high: Some(key(101.0)),
            low: Some(key(99.0)),
            close: Some(key(100.0)),
            total_qty: key(1.0 + i as f64),
        })
        .collect();
    let volumes: Vec<PulseMinute> =
        (0..n).map(|i| PulseMinute { ts_bucket: ts(i), poc_volume: key(1.0 + i as f64) }).collect();
    let sessions: Vec<TpoMinute> = (0..n).map(|i| session_minute(ts(i), 100.0)).collect();
    let samples: Vec<Sample> =
        (0..n).map(|i| Sample { ts: ts(i), value: Some(key(i as f64)) }).collect();
    let upto = |k: usize| MinuteInputs {
        avwap_futures: &averages[..k],
        avwap_spot: &averages[..k],
        rvwap: &weighted[..k],
        pulse: &volumes[..k],
        sessions: &sessions[..k],
        funding_changes: &[],
        funding_points: &samples[..k],
        mark_points: &samples[..k],
        index_points: &samples[..k],
    };
    let mut stepwise = IncrementalIndicatorState::default();
    stepwise.configure(config());
    stepwise.rebuild(Some(ts(n - 2)), &upto(n - 1), taken_in).expect("configured");
    let step = stepwise.on_finalized_minute(ts(n - 1), &upto(n), taken_in).expect("configured");
    match step.avwap {
        AvwapSync::Continued { fut_from, spot_from, steps } => {
            assert_eq!((fut_from, spot_from, steps.len()), (n - 1, n - 1, 1));
        }
        _ => panic!("the state has seen the rows"),
    }
    match step.rvwap {
        RvwapSync::Continued { from, steps } => assert_eq!((from, steps.len()), (n - 1, 1)),
        _ => panic!("the state has seen the rows"),
    }
    match step.pulse {
        PulseSync::Continued { from, steps } => assert_eq!((from, steps.len()), (n - 1, 1)),
        _ => panic!("the state has seen the rows"),
    }
    match step.sessions {
        TpoSync::Continued { from, reports } => {
            assert_eq!(from, n - 1);
            assert_eq!(reports, vec![(ts(n - 1), 2, vec![n, n])]);
        }
        _ => panic!("the state has seen the rows"),
    }
    match step.funding {
        FundingSync::Advanced(windows) => assert_eq!(windows.len(), 8),
        _ => panic!("the minute follows the last one"),
    }
    let mut whole = IncrementalIndicatorState::default();
    whole.configure(config());
    whole.rebuild(Some(ts(n - 1)), &upto(n), taken_in).expect("configured");
    for w in 0..7 {
        assert_eq!(stepwise.avwap().observed_minutes(w), whole.avwap().observed_minutes(w));
        assert_eq!(stepwise.avwap().series_instants(w), whole.avwap().series_instants(w));
    }
    assert_eq!(
        stepwise.rvwap().current_stats_by_window(),
        whole.rvwap().current_stats_by_window()
    );
    assert_eq!(stepwise.tpo().session(0).len(), whole.tpo().session(0).len());
}

#[test]
fn the_value_area_grows_to_the_share_asked_for() {
    let scores = [1, 2, 5, 3, 1];
    let area = recompute_value_area(&scores, 8);
    assert_eq!((area.poc_idx, area.val_idx, area.vah_idx), (2, 2, 3));
    let whole = recompute_value_area(&scores, 100);
    assert_eq!((whole.val_idx, whole.vah_idx), (0, 4));
    assert_eq!(single_print_zones(&[1, 1, 3, 1, 0, 1]), vec![(0, 1), (3, 3), (5, 5)]);
    assert_eq!(flat_scores(7, 3), vec![7, 0, 0]);
    assert_eq!(primary_session(&["1h".to_string(), "1d".to_string()]), Some(0));
    assert_eq!(primary_session(&[]), None);
}

#[test]
fn sorted_keys_stay_sorted() {
    let mut keys = vec![1, 3, 3, 7];
    insert_sorted(&mut keys, 3);
    insert_sorted(&mut keys, 0);
    assert_eq!(keys, vec![0, 1, 3, 3, 3, 7]);
    assert_eq!(lower_bound_keys(&keys, 3), 2);
    assert_eq!(lower_bound_keys(&keys, 8), 6);
}

#[test]
fn sessions_start_over_on_their_boundary() {
    let mut session = TpoSessionState::new(240, 60, vec![15]);
    assert_eq!((session.session_start(), session.initial_balance()), (None, (None, None)));
    let start = 240 * MINUTE_US * 1000;
    let first = session.append_history_row(&session_minute(start, 100.0));
    assert!(first.bar.is_some());
    session.append_history_row(&session_minute(start + MINUTE_US, 104.0));
    assert_eq!(session.initial_balance(), (Some(key(104.4)), Some(key(99.5))));
    assert_eq!(session.profile_range(), Some((key(99.5), key(104.4))));
    let next = session.append_history_row(&session_minute(start + 240 * MINUTE_US, 90.0));
    assert!(next.reset);
    assert_eq!(session.len(), 1);
    let empty = TpoMinute {
        ts_bucket: start,
        open: None,
        high: None,
        low: None,
        close: None,
        last: None,
    };
    assert!(minute_range_bar(&empty).is_none());
}

#[test]
fn rebuilt_states_say_what_the_whole_history_says() {
    let start = 1440 * MINUTE_US * 20_000;
    let n = 500usize;
    let ts = |i: usize| start + i as i64 * MINUTE_US;
    let weighted: Vec<RvwapMinute> = (0..n)
        .map(|i| RvwapMinute {
            ts_bucket: ts(i),
            high: Some(key(101.0)),
            low: Some(key(99.0)),
            close: if i % 9 == 4 { None } else { Some(key(100.0)) },
            total_qty: key((i % 7) as f64),
        })
        .collect();
    let volumes: Vec<PulseMinute> = (0..n)
        .map(|i| PulseMinute { ts_bucket: ts(i), poc_volume: key((i * 37 % 101) as f64) })
        .collect();
    let sessions: Vec<TpoMinute> = (0..n).map(|i| session_minute(ts(i), 100.0)).collect();
    let inputs = MinuteInputs {
        avwap_futures: &[],
        avwap_spot: &[],
        rvwap: &weighted,
        pulse: &volumes,
        sessions: &sessions,
        funding_changes: &[],
        funding_points: &[],
        mark_points: &[],
        index_points: &[],
    };
    let mut state = IncrementalIndicatorState::default();
    let mut asked = config();
    asked.history_limit_minutes = 300;
    asked.rvwap_windows = vec![15, 240, 300];
    asked.high_volume_pulse_z_windows = vec![0, 60, 300];
    state.configure(asked.clone());
    let step = state.rebuild(Some(ts(n - 1)), &inputs, taken_in).expect("configured");

    let (points, _) = collect_weighted_series(&weighted);
    let RvwapSync::Rebuilt(averaged) = step.rvwap else { panic!("rebuilt") };
    let held = state.rvwap().current_stats_by_window();
    let ahead = points.len() - state.rvwap().len();
    assert!(ahead > 0);
    for (w, minutes) in asked.rvwap_windows.iter().enumerate() {
        let whole = compute_stats_at(&points, points.len() - 1, *minutes, asked.rvwap_min_samples);
        let (whole, own) = (whole.expect("samples"), held[w].as_ref().expect("samples"));
        assert_eq!(whole.sample_count, own.sample_count);
        assert_eq!((whole.start_idx, whole.end_idx), (own.start_idx + ahead, own.end_idx + ahead));
    }
    for (w, minutes) in asked.rvwap_output_windows.iter().enumerate() {
        let reported = averaged.iter().filter(|s| s.reported.get(w) == Some(&true)).count();
        assert_eq!(reported, points_to_report(&points, *minutes).len());
    }

    let series: Vec<PulsePoint> = volumes
        .iter()
        .map(|row| PulsePoint { ts: row.ts_bucket + MINUTE_US, poc_volume: row.poc_volume })
        .collect();
    let PulseSync::Rebuilt(bursts) = step.pulse else { panic!("rebuilt") };
    let dropped: usize = bursts.iter().map(|s| s.dropped).sum();
    assert_eq!(dropped, 200);
    let last = bursts.last().expect("steps");
    for (w, minutes) in asked.high_volume_pulse_z_windows.iter().enumerate() {
        let whole = rolling_window(&series, n - 1, *minutes);
        assert_eq!(last.rolling_from[w].map(|i| i + dropped), whole);
    }
    for (w, minutes) in asked.high_volume_pulse_summary_windows.iter().enumerate() {
        let whole = intrabar_poc_max_in_window(&series, n - 1, *minutes).map(|i| series[i]);
        assert_eq!(last.summary[w], whole);
    }

    assert_eq!(state.tpo().session(0).len(), 20);
    assert_eq!(state.tpo().session(0).session_start(), Some(ts(480)));
    assert_eq!(state.tpo().session(1).len(), 500);
}
