use chrono::{TimeZone, Utc};
use indicator_engine::clock::{floor_to, DAY_US, MINUTE_US};
use indicator_engine::kline::{
    apply_record_to_bar, bar_has_any_price, bar_has_full_coverage, bar_source,
    build_interval_bar_records, build_interval_bar_records_from_records,
    build_interval_bars_with_db, intervals, merge_interval_bar_records,
    oldest_retained_bar_open_time, should_preserve_existing_bar, AggregatedBar, BarSource,
    I19KlineHistory, IntervalBars, KlineHistoryBar, MarketHistory, MinuteBar,
};
use indicator_engine::order::{order_key, Key};

fn key(x: f64) -> Key {
    order_key(x.to_bits())
}

fn at(year: i32, month: u32, day: u32, hour: u32, min: u32) -> i64 {
    Utc.with_ymd_and_hms(year, month, day, hour, min, 0).single().unwrap().timestamp_micros()
}

fn empty_minute(ts_bucket: i64) -> MinuteBar {
    MinuteBar {
        ts_bucket,
        open_price: None,
        high_price: None,
        low_price: None,
        close_price: None,
        last_price: None,
    }
}

fn priced_minute(ts_bucket: i64, price: f64) -> MinuteBar {
    let p = Some(key(price));
    MinuteBar {
        ts_bucket,
        open_price: p,
        high_price: p,
        low_price: p,
        close_price: p,
        last_price: p,
    }
}

fn db_bar(open_time: i64, price: f64, interval_minutes: i64) -> KlineHistoryBar {
    KlineHistoryBar {
        open_time,
        close_time: open_time + interval_minutes * MINUTE_US,
        open: Some(key(price)),
        high: Some(key(price + 10.0)),
        low: Some(key(price - 10.0)),
        close: Some(key(price + 1.0)),
        volume_base: key(100.0),
        volume_quote: key(1000.0),
        is_closed: true,
        minutes_covered: interval_minutes,
        expected_minutes: interval_minutes,
    }
}

fn weighed(bars: &[AggregatedBar], qty: f64, notional: f64) -> Vec<KlineHistoryBar> {
    bars.iter().map(|b| b.with_volumes(key(qty), key(notional))).collect()
}

#[test]
fn empty_in_memory_bar_does_not_override_db_bar() {
    let minute = at(2026, 3, 10, 16, 5);
    let open_time = floor_to(minute, 240 * MINUTE_US);
    let close = open_time + 240 * MINUTE_US;
    let in_memory =
        build_interval_bar_records(&[empty_minute(minute)], 240, usize::MAX, close);
    let bars = build_interval_bars_with_db(
        &[db_bar(open_time, 2000.0, 240)],
        &weighed(&in_memory, 0.0, 0.0),
        10,
    );

    assert_eq!(bars.len(), 1);
    assert_eq!(bars[0].open, Some(key(2000.0)));
    assert_eq!(bars[0].close, Some(key(2001.0)));
    assert_eq!(bars[0].minutes_covered, 240);
}

#[test]
fn incomplete_priced_in_memory_bar_does_not_override_complete_db_bar() {
    let minute = at(2026, 3, 10, 16, 5);
    let open_time = floor_to(minute, 240 * MINUTE_US);
    let close = open_time + 240 * MINUTE_US;
    let in_memory =
        build_interval_bar_records(&[priced_minute(minute, 2100.0)], 240, usize::MAX, close);
    let bars = build_interval_bars_with_db(
        &[db_bar(open_time, 2000.0, 240)],
        &weighed(&in_memory, 1.0, 2100.0),
        10,
    );

    assert_eq!(bars.len(), 1);
    assert_eq!(bars[0].open, Some(key(2000.0)));
    assert_eq!(bars[0].close, Some(key(2001.0)));
    assert_eq!(bars[0].minutes_covered, 240);
}

#[test]
fn truncated_in_memory_interval_is_not_marked_closed() {
    let start = at(2026, 3, 10, 16, 0);
    let bars = build_interval_bar_records(
        &[priced_minute(start, 100.0), priced_minute(start + MINUTE_US, 101.0)],
        240,
        10,
        start + 240 * MINUTE_US,
    );

    assert_eq!(bars.len(), 1);
    assert!(!bars[0].is_closed);
    assert_eq!(bars[0].minutes_covered, 2);
    assert_eq!(bars[0].expected_minutes, 240);
}

#[test]
fn daily_records_can_be_aggregated_into_3d_bars() {
    let current_close = at(2026, 3, 7, 0, 0);
    let start = floor_to(current_close - 6 * DAY_US, 4320 * MINUTE_US);
    let bars = vec![
        db_bar(start, 100.0, 1440),
        db_bar(start + DAY_US, 110.0, 1440),
        db_bar(start + 2 * DAY_US, 120.0, 1440),
        db_bar(start + 3 * DAY_US, 90.0, 1440),
        db_bar(start + 4 * DAY_US, 80.0, 1440),
        db_bar(start + 5 * DAY_US, 70.0, 1440),
    ];

    let aggregated = build_interval_bar_records_from_records(&bars, 4320, 10, current_close);

    assert_eq!(aggregated.len(), 2);
    assert_eq!(aggregated[0].open, Some(key(100.0)));
    assert_eq!(aggregated[0].close, Some(key(121.0)));
    assert_eq!(aggregated[0].minutes_covered, 4320);
    assert!(aggregated[0].is_closed);
    assert_eq!(aggregated[1].open, Some(key(90.0)));
    assert_eq!(aggregated[1].close, Some(key(71.0)));
    assert_eq!(aggregated[1].minutes_covered, 4320);
    assert!(aggregated[1].is_closed);
    assert_eq!(aggregated[0].parts, vec![0, 1, 2]);
    assert_eq!(aggregated[0].high, Some(key(130.0)));
    assert_eq!(aggregated[1].low, Some(key(60.0)));
}

#[test]
fn incomplete_daily_records_do_not_produce_closed_multiday_bar() {
    let current_close = at(2026, 3, 10, 0, 0);
    let start = floor_to(current_close - 6 * DAY_US, 10_080 * MINUTE_US);
    let bars = vec![
        db_bar(start, 100.0, 1440),
        db_bar(start + DAY_US, 110.0, 1440),
        db_bar(start + 2 * DAY_US, 120.0, 1440),
    ];

    let aggregated = build_interval_bar_records_from_records(&bars, 10_080, 10, current_close);

    assert_eq!(aggregated.len(), 1);
    assert!(!aggregated[0].is_closed);
    assert_eq!(aggregated[0].minutes_covered, 4320);
    assert_eq!(aggregated[0].expected_minutes, 10_080);
}

#[test]
fn full_interval_is_closed_once_its_end_has_come() {
    let start = at(2026, 3, 10, 16, 0);
    let minutes: Vec<MinuteBar> =
        (0..15).map(|i| priced_minute(start + i * MINUTE_US, 100.0 + i as f64)).collect();
    let open = build_interval_bar_records(&minutes, 15, 10, start + 14 * MINUTE_US);
    assert!(!open[0].is_closed);
    let closed = build_interval_bar_records(&minutes, 15, 10, start + 15 * MINUTE_US);
    assert!(closed[0].is_closed);
    assert_eq!(closed[0].open, Some(key(100.0)));
    assert_eq!(closed[0].close, Some(key(114.0)));
    assert_eq!(closed[0].high, Some(key(114.0)));
    assert_eq!(closed[0].low, Some(key(100.0)));
    assert_eq!(closed[0].parts.len(), 15);
}

#[test]
fn only_the_last_bars_are_returned() {
    let start = at(2026, 3, 10, 16, 0);
    let minutes: Vec<MinuteBar> =
        (0..30).map(|i| priced_minute(start + i * MINUTE_US, 100.0)).collect();
    let close = start + 30 * MINUTE_US;
    let bars = build_interval_bar_records(&minutes, 5, 2, close);
    assert_eq!(
        bars.iter().map(|b| b.open_time).collect::<Vec<i64>>(),
        vec![start + 20 * MINUTE_US, start + 25 * MINUTE_US]
    );
    assert_eq!(
        oldest_retained_bar_open_time(&minutes, 5, 2, close),
        Some(start + 20 * MINUTE_US)
    );
    assert!(build_interval_bar_records(&minutes, 5, 0, close).is_empty());
    assert!(build_interval_bar_records(&minutes, 0, 2, close).is_empty());
    assert_eq!(oldest_retained_bar_open_time(&[], 5, 2, close), None);
    assert_eq!(build_interval_bar_records(&minutes, 1, 3, close).len(), 3);
}

#[test]
fn whole_stored_bars_survive_a_merge() {
    let stored = db_bar(0, 2000.0, 240);
    let mut partial = db_bar(0, 2100.0, 240);
    partial.minutes_covered = 10;
    assert!(bar_has_any_price(&partial) && !bar_has_full_coverage(&partial));
    assert!(bar_has_full_coverage(&stored));
    assert!(should_preserve_existing_bar(&stored, &partial));
    let other = db_bar(240 * MINUTE_US, 2200.0, 240);
    let merged = merge_interval_bar_records(&[stored], &[partial, other]);
    assert_eq!(merged, vec![stored, other]);
    let whole = db_bar(0, 2100.0, 240);
    assert_eq!(merge_interval_bar_records(&[stored], &[whole]), vec![whole]);
}

#[test]
fn records_are_added_to_a_bar() {
    let mut target = db_bar(0, 100.0, 1440);
    let source = db_bar(DAY_US, 120.0, 1440);
    apply_record_to_bar(&mut target, &source, key(200.0), key(2000.0));
    assert_eq!(target.open, Some(key(100.0)));
    assert_eq!(target.close, Some(key(121.0)));
    assert_eq!(target.high, Some(key(130.0)));
    assert_eq!(target.low, Some(key(90.0)));
    assert_eq!(target.volume_base, key(200.0));
    assert_eq!(target.minutes_covered, 2880);
}

#[test]
fn bars_come_from_their_sources() {
    assert_eq!(bar_source(240, false), BarSource::MinutesAndStored);
    assert_eq!(bar_source(1440, false), BarSource::Minutes);
    assert_eq!(bar_source(1440, true), BarSource::MinutesAndStored);
    assert_eq!(bar_source(4320, false), BarSource::DailyBars);
    assert_eq!(intervals()[6], ("30d", 43_200));
    let stored = db_bar(0, 2000.0, 240);
    let fresh = db_bar(240 * MINUTE_US, 2100.0, 240);
    let close = 480 * MINUTE_US;
    match I19KlineHistory.evaluate(240, 10, false, &[fresh], &[], &[stored], close) {
        IntervalBars::Ready(bars) => assert_eq!(bars, vec![stored, fresh]),
        IntervalBars::Aggregated(_) => panic!("four hours need no daily bars"),
    }
    match I19KlineHistory.evaluate(15, 1, false, &[stored, fresh], &[], &[], close) {
        IntervalBars::Ready(bars) => assert_eq!(bars, vec![fresh]),
        IntervalBars::Aggregated(_) => panic!("minutes need no daily bars"),
    }
    let day = db_bar(0, 100.0, 1440);
    match I19KlineHistory.evaluate(4320, 10, false, &[], &[day], &[], 4320 * MINUTE_US) {
        IntervalBars::Aggregated(bars) => assert_eq!(bars[0].minutes_covered, 1440),
        IntervalBars::Ready(_) => panic!("three days need daily bars"),
    }
    assert_eq!(I19KlineHistory.code(), "kline_history");
}

#[test]
fn bars_cover_every_minute_once() {
    let start = at(2026, 3, 10, 16, 2);
    let minutes: Vec<MinuteBar> = (0..37)
        .filter(|i| i % 7 != 3)
        .map(|i| priced_minute(start + i * MINUTE_US, 100.0 + i as f64))
        .collect();
    let close = start + 37 * MINUTE_US;
    for interval in [1, 5, 15, 240] {
        let bars = build_interval_bar_records(&minutes, interval, usize::MAX, close);
        let covered: i64 = bars.iter().map(|b| b.minutes_covered).sum();
        assert_eq!(covered, minutes.len() as i64);
        for bar in &bars {
            assert_eq!(bar.close_time, bar.open_time + interval * MINUTE_US);
            assert_eq!(bar.open_time % (interval * MINUTE_US), 0);
            assert_eq!(
                bar.is_closed,
                bar.close_time <= close && bar.minutes_covered >= interval
            );
        }
        let last = build_interval_bar_records(&minutes, interval, 2, close);
        let opens: Vec<i64> = bars.iter().map(|b| b.open_time).collect();
        let last_opens: Vec<i64> = last.iter().map(|b| b.open_time).collect();
        assert_eq!(last_opens, opens[opens.len() - opens.len().min(2)..]);
        assert!(opens.windows(2).all(|w| w[0] < w[1]));
    }
}

#[test]
fn market_bars_go_from_minutes_to_the_merged_list() {
    let start = floor_to(at(2026, 3, 7, 0, 0), 4320 * MINUTE_US);
    let today = start + 2 * DAY_US;
    let minutes: Vec<MinuteBar> =
        (0..300).map(|i| priced_minute(today + i * MINUTE_US, 100.0 + i as f64)).collect();
    let qty: Vec<f64> = (0..300).map(|i| 1.0 + i as f64).collect();
    let stored_4h = [db_bar(today - 240 * MINUTE_US, 50.0, 240), db_bar(today, 60.0, 240)];
    let stored_1d = [db_bar(start, 10.0, 1440), db_bar(start + DAY_US, 20.0, 1440)];
    let market =
        MarketHistory { history: &minutes, stored_4h: &stored_4h, stored_1d: &stored_1d };
    let close = today + 300 * MINUTE_US;
    let of = |interval: i64, limit: usize, fill: bool| {
        I19KlineHistory.market_bars(
            &market,
            interval,
            limit,
            fill,
            close,
            |parts: &[usize]| {
                let base: f64 = parts.iter().map(|&i| qty[i]).sum();
                (key(base), key(base * 2.0))
            },
            |bars: &[KlineHistoryBar], parts: &[usize]| {
                let count = parts.len() as f64;
                (key(count), if bars.len() == 3 { key(3.0) } else { key(0.0) })
            },
        )
    };

    let ones = of(1, 2, false).expect("bars");
    assert_eq!(ones.len(), 2);
    assert_eq!((ones[1].volume_base, ones[1].volume_quote), (key(300.0), key(600.0)));

    let quarters = of(15, 1, false).expect("bars");
    assert_eq!(quarters[0].volume_base, key((286..=300).sum::<i64>() as f64));

    let fours = of(240, 10, false).expect("bars");
    assert_eq!(fours.len(), 3);
    assert_eq!(fours[0], stored_4h[0]);
    assert_eq!(fours[1].volume_base, key((1..=240).sum::<i64>() as f64));
    assert_eq!(fours[2].minutes_covered, 60);

    let days = of(1440, 10, false).expect("bars");
    assert_eq!(days.len(), 1);
    let filled = of(1440, 10, true).expect("bars");
    assert_eq!(filled[..2], stored_1d);
    assert_eq!(filled[2], days[0]);

    let long = of(4320, 10, false).expect("bars");
    assert_eq!(long.len(), 1);
    assert_eq!((long[0].open, long[0].close), (Some(key(10.0)), Some(key(399.0))));
    assert_eq!(long[0].minutes_covered, 2 * 1440 + 300);
    assert_eq!((long[0].volume_base, long[0].volume_quote), (key(3.0), key(3.0)));
    assert_eq!(of(4320, 0, false), Some(vec![]));
    assert_eq!(of(0, 10, false), Some(vec![]));
}

#[test]
fn daily_bars_that_cannot_be_counted_are_refused() {
    let mut day = db_bar(0, 100.0, 1440);
    day.minutes_covered = i64::MAX;
    let mut next = db_bar(DAY_US, 100.0, 1440);
    next.minutes_covered = 1;
    let stored = [day, next];
    let market = MarketHistory { history: &[], stored_4h: &[], stored_1d: &stored };
    let none = |_: &[usize]| (0, 0);
    let sums = |_: &[KlineHistoryBar], _: &[usize]| (0, 0);
    let close = 2 * DAY_US;
    assert_eq!(I19KlineHistory.market_bars(&market, 4320, 5, true, close, none, sums), None);
    let one = MarketHistory { history: &[], stored_4h: &[], stored_1d: &stored[..1] };
    assert!(I19KlineHistory.market_bars(&one, 4320, 5, true, close, none, sums).is_some());
}
