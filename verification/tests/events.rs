use chrono::{TimeZone, Utc};
use indicator_engine::absorption;
use indicator_engine::absorption::{
    compute_absorption_all_history, detect_absorption_events, key_levels, mark_of, Bar,
    BarMeasure, I06Absorption, KeyLevels,
};
use indicator_engine::bootstrap::{
    block_bootstrap_samples, build_returns_from_option_series, XorShift64,
};
use indicator_engine::clock::MINUTE_US;
use indicator_engine::divergence;
use indicator_engine::divergence::{
    candidate_index, compute_divergence_all_history, divergence_label, judge,
    leg_len, leg_seeds, DivergenceEventData, DivergenceEventStateMachine, DivergenceKind,
    DivergenceSigTestMode, DivergenceSignal, Driver, I03Divergence, Leg, LegMeasure,
};
use indicator_engine::exhaustion;
use indicator_engine::exhaustion::{
    compute_exhaustion_all_history_from_histories, detect_buying_events, detect_selling_events,
    ExhaustionEventStateMachine, Flow, I12BuyingExhaustion, I13SellingExhaustion,
};
use indicator_engine::initiation;
use indicator_engine::initiation::{
    compute_initiation_all_history_from_histories, detect_initiation_events, direction_of_break,
    spot_break_confirm, I07Initiation, InitiationEventStateMachine, ValueArea,
};
use indicator_engine::order::{half_key, key_bits, order_key, sign_of, Key, Price, Quote};
use indicator_engine::pivots::{check_pivot, is_beyond, list_pivots};

fn key(x: f64) -> Key {
    order_key(x.to_bits())
}

fn number(k: Key) -> f64 {
    f64::from_bits(key_bits(k))
}

fn price(x: f64) -> Price {
    Price {
        at: key(x),
        up_one: key(x + 0.01),
        down_one: key(x - 0.01),
        up_two: key(x + 0.02),
        down_two: key(x - 0.02),
    }
}

fn quote(open: f64, high: f64, low: f64, close: f64) -> Quote {
    Quote {
        open: Some(price(open)),
        high: Some(price(high)),
        low: Some(price(low)),
        close: Some(price(close)),
        last: Some(price(close)),
    }
}

fn at(day: u32, hour: u32) -> i64 {
    Utc.with_ymd_and_hms(2026, 3, day, hour, 0, 0).unwrap().timestamp_micros()
}

fn flow(x: f64, tolerance: f64) -> Flow {
    Flow { at: key(x), less: key(x - tolerance), more: key(x + tolerance) }
}

fn share(part: f64, range: f64) -> Key {
    key(part / (range + 1e-12))
}

struct Shape {
    highs: Vec<f64>,
    lows: Vec<f64>,
    closes: Vec<f64>,
    deltas: Vec<f64>,
    rdeltas: Vec<f64>,
}

fn exhaustion_minutes(base: i64, s: &Shape) -> Vec<exhaustion::DerivedMinute> {
    (0..s.highs.len())
        .map(|i| {
            let ts_bucket = base + i as i64 * MINUTE_US;
            let range = s.highs[i] - s.lows[i];
            let futures = exhaustion::FuturesMinute {
                ts_bucket,
                quote: quote(s.closes[i], s.highs[i], s.lows[i], s.closes[i]),
                delta: flow(s.deltas[i], 20.0),
                rdelta: flow(s.rdeltas[i], 0.05),
                reject_top: share(s.highs[i] - s.closes[i], range),
                reject_bottom: share(s.closes[i] - s.lows[i], range),
            };
            let spot = exhaustion::SpotMinute { ts_bucket, cvd: key(0.0), whale_notional: key(0.0) };
            exhaustion::derived(&futures, &spot, i)
        })
        .collect()
}

#[test]
fn buying_exhaustion_all_history_keeps_historical_confirmed_event() {
    let base = at(9, 8);
    let mut s = Shape {
        highs: vec![100.0; 15],
        lows: vec![99.0; 15],
        closes: vec![99.5; 15],
        deltas: vec![0.0; 15],
        rdeltas: vec![0.0; 15],
    };
    s.highs[3] = 101.0;
    s.highs[8] = 104.0;
    s.lows[8] = 102.0;
    s.closes[8] = 102.3;
    s.closes[9] = 102.1;
    s.closes[10] = 101.9;
    s.deltas[3] = 120.0;
    s.deltas[8] = 80.0;
    s.rdeltas[3] = 0.20;
    s.rdeltas[8] = 0.10;

    let minutes = exhaustion_minutes(base, &s);
    let events = detect_buying_events(&minutes, &[3, 8], 14);

    assert_eq!(events.len(), 1);
    assert_eq!(exhaustion::event_type(events[0].direction), "buying_exhaustion");
    assert_eq!(events[0].pivot_price, key(s.highs[8]));
    assert_eq!(events[0].confirm_ts, minutes[10].ts_bucket + MINUTE_US);
}

#[test]
fn selling_exhaustion_all_history_keeps_historical_confirmed_event() {
    let base = at(9, 10);
    let mut s = Shape {
        highs: vec![101.0; 15],
        lows: vec![99.0; 15],
        closes: vec![100.5; 15],
        deltas: vec![0.0; 15],
        rdeltas: vec![0.0; 15],
    };
    s.lows[3] = 99.0;
    s.highs[8] = 97.0;
    s.lows[8] = 96.0;
    s.closes[8] = 96.8;
    s.closes[9] = 96.9;
    s.closes[10] = 97.2;
    s.deltas[3] = -120.0;
    s.deltas[8] = -80.0;
    s.rdeltas[3] = -0.20;
    s.rdeltas[8] = -0.10;

    let minutes = exhaustion_minutes(base, &s);
    let events = detect_selling_events(&minutes, &[3, 8], 14);

    assert_eq!(events.len(), 1);
    assert_eq!(exhaustion::event_type(events[0].direction), "selling_exhaustion");
    assert_eq!(events[0].pivot_price, key(s.lows[8]));
    assert_eq!(events[0].confirm_ts, minutes[10].ts_bucket + MINUTE_US);

    let report = I13SellingExhaustion.evaluate(minutes[10].ts_bucket, &events, 15, 14);
    assert_eq!(report.listed, events);
    assert_eq!(report.rows, events);
    assert_eq!(report.covered_minutes, 14);
    let later = I13SellingExhaustion.evaluate(minutes[11].ts_bucket, &events, 15, 15);
    assert_eq!(later.listed, events);
    assert!(later.rows.is_empty());
    let other = I12BuyingExhaustion.evaluate(minutes[10].ts_bucket, &events, 15, 15);
    assert!(other.listed.is_empty() && other.rows.is_empty());
    assert_eq!(I12BuyingExhaustion.code(), "buying_exhaustion");
    assert_eq!(I13SellingExhaustion.code(), "selling_exhaustion");
}

#[test]
fn cached_exhaustion_all_history_matches_direct_compute() {
    let base = at(9, 12);
    let futures: Vec<exhaustion::FuturesMinute> = (0..16)
        .map(|i| {
            let step = i as f64 * 0.1;
            let (high, low, close) = (100.0 + step, 99.0 + step, 99.5 + step);
            exhaustion::FuturesMinute {
                ts_bucket: base + i * MINUTE_US,
                quote: quote(close, high, low, close),
                delta: flow(i as f64, 20.0),
                rdelta: flow(i as f64 / 100.0, 0.05),
                reject_top: share(high - close, high - low),
                reject_bottom: share(close - low, high - low),
            }
        })
        .collect();
    let spot: Vec<exhaustion::SpotMinute> = (0..16)
        .map(|i| exhaustion::SpotMinute {
            ts_bucket: base + i * MINUTE_US,
            cvd: key(i as f64 * 2.0),
            whale_notional: key(i as f64 / 2.0 * (99.7 + i as f64 * 0.1)),
        })
        .collect();

    let direct = compute_exhaustion_all_history_from_histories(&futures, &spot);

    let mut rebuilt_machine = ExhaustionEventStateMachine::default();
    rebuilt_machine.rebuild(&futures, &spot);
    assert_eq!(direct, rebuilt_machine.events());

    let mut streaming_machine = ExhaustionEventStateMachine::default();
    for end in 0..futures.len() {
        streaming_machine.sync(&futures[..=end], &spot[..=end]);
    }
    assert_eq!(direct, streaming_machine.events());
}

#[test]
fn exhaustion_is_found_minute_by_minute() {
    let base = at(9, 8);
    let mut s = Shape {
        highs: vec![100.0; 30],
        lows: vec![99.0; 30],
        closes: vec![99.5; 30],
        deltas: vec![0.0; 30],
        rdeltas: vec![0.0; 30],
    };
    s.highs[8] = 101.0;
    s.highs[16] = 104.0;
    s.lows[16] = 102.0;
    s.closes[16] = 102.3;
    for i in 17..20 {
        s.closes[i] = 102.2;
        s.highs[i] = 103.0;
    }
    s.closes[21] = 99.9;
    s.deltas[8] = 120.0;
    s.deltas[16] = 80.0;
    s.rdeltas[8] = 0.20;
    s.rdeltas[16] = 0.10;
    let minutes = exhaustion_minutes(base, &s);
    let futures: Vec<exhaustion::FuturesMinute> = (0..30)
        .map(|i| exhaustion::FuturesMinute {
            ts_bucket: minutes[i].ts_bucket,
            quote: quote(s.closes[i], s.highs[i], s.lows[i], s.closes[i]),
            delta: minutes[i].delta,
            rdelta: minutes[i].rdelta,
            reject_top: minutes[i].reject_top,
            reject_bottom: minutes[i].reject_bottom,
        })
        .collect();
    let spot: Vec<exhaustion::SpotMinute> = minutes.iter().map(|m| m.spot).collect();
    let mut machine = ExhaustionEventStateMachine::default();
    machine.rebuild(&futures, &spot);
    let rebuilt = machine.events();
    let mut streaming = ExhaustionEventStateMachine::default();
    for end in 0..30 {
        streaming.sync(&futures[..=end], &spot[..=end]);
    }
    assert_eq!(streaming.events(), rebuilt);
    assert!(rebuilt.iter().all(|e| e.direction == -1));
    let mut in_leaps = ExhaustionEventStateMachine::default();
    for end in [1, 9, 10, 21, 30] {
        in_leaps.sync(&futures[..end], &spot[..end]);
        let mut whole = ExhaustionEventStateMachine::default();
        whole.rebuild(&futures[..end], &spot[..end]);
        assert_eq!(in_leaps.events(), whole.events());
    }
    assert_eq!(in_leaps.events(), rebuilt);
}

#[test]
fn changes_are_named_by_what_was_exhausted() {
    assert_eq!(exhaustion::change_names(-1), ("delta_drop", "rdelta_drop"));
    assert_eq!(exhaustion::change_names(1), ("delta_lift", "rdelta_lift"));
}

fn sample_bar(i: i64, base: i64) -> Bar {
    let step = i as f64 * 0.1;
    let buy = 5.0 + i as f64;
    let sell = 4.0 + (i % 3) as f64;
    let close = 100.2 + step;
    Bar {
        ts_bucket: base + i * MINUTE_US,
        open: key(100.0 + step),
        high: price(101.0 + step),
        low: price(99.0 + step),
        close: key(close),
        rdelta: key((buy - sell) / (buy + sell)),
        avwap: Some(key(close)),
        value_area: None,
        stacked_buy: false,
        stacked_sell: false,
    }
}

fn bar_measure(bar: &Bar, l: &KeyLevels) -> BarMeasure {
    let (high, low, close) = (number(bar.high.at), number(bar.low.at), number(bar.close));
    let all = [l.vah, l.val, l.poc, l.avwap, l.session_high, l.session_low];
    let ticks = |x: f64| all.map(|level| key((x - number(level)).abs() / 0.01));
    BarMeasure {
        range: key(high - low),
        reject_bull: share(close - low, high - low),
        reject_bear: share(high - close, high - low),
        low_distances: ticks(low),
        high_distances: ticks(high),
    }
}

fn absorbed(bars: &[Bar]) -> (Vec<BarMeasure>, Vec<absorption::AbsorptionEventData>) {
    compute_absorption_all_history(bars, bar_measure, |s| {
        key((number(s.low.at) + number(s.high.at)) / 2.0)
    })
}

#[test]
fn cached_absorption_all_history_matches_direct_compute() {
    let base = at(9, 1);
    let bars: Vec<Bar> = (0..10).map(|i| sample_bar(i, base)).collect();
    let (measures, direct) = absorbed(&bars);
    let (_, cached) = absorbed(&bars);
    assert_eq!(direct, cached);
    let levels = key_levels(&bars);
    assert_eq!(measures.len(), bars.len());
    assert_eq!(measures[4].low_distances, bar_measure(&bars[4], &levels[4]).low_distances);

    let ts_bucket = base + 9 * MINUTE_US;
    let expected_current: Vec<absorption::AbsorptionEventData> =
        direct.iter().filter(|event| event.confirm_ts == ts_bucket + MINUTE_US).copied().collect();
    assert_eq!(detect_absorption_events(&direct, ts_bucket), expected_current);
}

#[test]
fn absorbed_selling_is_confirmed_by_a_close_past_the_middle() {
    let base = at(9, 1);
    let mut bars: Vec<Bar> = (0..12)
        .map(|i| Bar {
            ts_bucket: base + i * MINUTE_US,
            open: key(100.0),
            high: price(100.5),
            low: price(99.5),
            close: key(100.0),
            rdelta: key(0.0),
            avwap: Some(key(100.0)),
            value_area: None,
            stacked_buy: false,
            stacked_sell: false,
        })
        .collect();
    bars[7].rdelta = key(-0.5);
    bars[7].close = key(100.4);
    bars[7].stacked_sell = true;
    bars[8].close = key(100.3);
    let (measures, events) = absorbed(&bars);
    assert_eq!(mark_of(&bars[7], &measures[7]), 1);
    assert_eq!(events.len(), 1);
    assert_eq!(events[0].direction, 1);
    assert_eq!(events[0].start_ts, bars[7].ts_bucket);
    assert_eq!(events[0].confirm_ts, bars[8].ts_bucket + MINUTE_US);
    assert_eq!(events[0].pivot_price, key(99.5));
    assert!(events[0].stacked_sell_imbalance && !events[0].stacked_buy_imbalance);
    assert_eq!(absorption::event_type(events[0].direction), "bullish_absorption");
    assert_eq!(absorption::trigger_side(events[0].direction), "sell");
    assert!(absorption::spot_confirm(key(0.1), key(-1.0)));
    let report = I06Absorption.evaluate(&events, 12, 11);
    assert_eq!(report.rows, events);
    assert_eq!(report.covered_minutes, 11);
    assert_eq!(I06Absorption.code(), "absorption");
}

#[test]
fn the_parts_of_absorption_events_agree() {
    let base = at(9, 1);
    let mut bars: Vec<Bar> = (0..80)
        .map(|i| Bar {
            ts_bucket: base + i * MINUTE_US,
            open: key(100.0),
            high: price(100.5),
            low: price(99.5),
            close: key(100.0),
            rdelta: key(0.0),
            avwap: Some(key(100.0)),
            value_area: None,
            stacked_buy: false,
            stacked_sell: false,
        })
        .collect();
    for i in [10, 11, 12, 60] {
        bars[i].rdelta = key(-0.3);
        bars[i].close = key(100.4);
        bars[i].stacked_sell = true;
    }
    for i in 20..55 {
        bars[i].rdelta = key(0.3);
        bars[i].close = key(99.6);
        bars[i].stacked_buy = true;
    }
    bars[13].close = key(100.3);
    bars[55].close = key(99.7);
    bars[63].close = key(100.3);
    let (measures, events) = absorbed(&bars);
    assert_eq!(events.iter().map(|e| e.direction).collect::<Vec<i16>>(), vec![1, -1, -1, 1]);
    assert!(events.windows(2).all(|w| w[0].start_ts < w[1].start_ts));
    for e in &events {
        assert!(e.end_ts - e.start_ts <= 30 * MINUTE_US);
        let wait = (e.confirm_ts - e.end_ts) / MINUTE_US;
        assert!((1..=3).contains(&wait));
        assert!(number(e.key_distance_ticks) <= 6.0);
        for i in e.start_idx..=e.end_idx {
            assert_eq!(mark_of(&bars[i], &measures[i]), e.direction);
        }
        let up = e.direction == 1;
        assert_eq!(e.pivot_price, if up { e.price_low } else { e.price_high });
        assert!(if up { e.stacked_sell_imbalance } else { e.stacked_buy_imbalance });
        assert_eq!(absorption::trigger_side(e.direction), if up { "sell" } else { "buy" });
    }
    assert_eq!((events[1].end_ts - events[1].start_ts) / MINUTE_US, 30);
    assert!(absorbed(&bars[9..16]).1.is_empty());
}

fn initiation_histories(
    n: i64,
    base: i64,
) -> (Vec<initiation::FuturesMinute>, Vec<initiation::SpotMinute>) {
    let futures = (0..n)
        .map(|i| {
            let step = i as f64 * 0.05;
            let (open, high, low, close) = (100.0 + step, 101.0 + step, 99.0 + step, 100.3 + step);
            let (buy, sell) = (6.0 + i as f64, 3.0 + (i % 2) as f64);
            initiation::FuturesMinute {
                ts_bucket: base + i * MINUTE_US,
                quote: quote(open, high, low, close),
                value_area: Some(ValueArea { val: price(low), vah: price(high) }),
                stacked_buy: false,
                stacked_sell: false,
                rdelta: key((buy - sell) / (buy + sell)),
                zdelta: key(0.0),
                follow_delta: key(buy - sell),
                clv_bull: share(close - low, high - low),
                clv_bear: share(high - close, high - low),
            }
        })
        .collect();
    let spot = (0..n)
        .map(|i| {
            let (buy, sell) = (4.0 + i as f64, 2.5 + (i % 3) as f64);
            initiation::SpotMinute {
                ts_bucket: base + i * MINUTE_US,
                rdelta: key((buy - sell) / (buy + sell)),
                cvd: key((i * 2) as f64),
                whale_notional: key((buy - sell) * (100.1 + i as f64 * 0.05)),
            }
        })
        .collect();
    (futures, spot)
}

#[test]
fn cached_initiation_all_history_matches_direct_compute() {
    let base = at(9, 2);
    let (futures, spot) = initiation_histories(12, base);
    let direct = compute_initiation_all_history_from_histories(&futures, &spot);

    let mut rebuilt_machine = InitiationEventStateMachine::default();
    rebuilt_machine.rebuild(&futures, &spot);
    assert_eq!(direct, rebuilt_machine.events());

    let mut streaming_machine = InitiationEventStateMachine::default();
    for end in 0..futures.len() {
        streaming_machine.sync(&futures[..=end], &spot[..=end]);
    }
    assert_eq!(direct, streaming_machine.events());

    let ts_bucket = base + 11 * MINUTE_US;
    let expected_current: Vec<initiation::InitiationEventData> =
        direct.iter().filter(|event| event.confirm_ts == ts_bucket + MINUTE_US).copied().collect();
    assert_eq!(detect_initiation_events(&direct, ts_bucket), expected_current);
}

#[test]
fn a_break_that_holds_is_an_initiation() {
    let base = at(9, 2);
    let n = 80usize;
    let flat = |i: usize| initiation::FuturesMinute {
        ts_bucket: base + i as i64 * MINUTE_US,
        quote: quote(100.0, 100.5, 99.5, 100.0),
        value_area: Some(ValueArea { val: price(99.6), vah: price(100.4) }),
        stacked_buy: false,
        stacked_sell: false,
        rdelta: key(0.0),
        zdelta: key(0.0),
        follow_delta: key(0.0),
        clv_bull: key(0.5),
        clv_bear: key(0.5),
    };
    let mut futures: Vec<initiation::FuturesMinute> = (0..n).map(flat).collect();
    for row in futures.iter_mut().skip(70) {
        row.quote = quote(102.0, 102.5, 101.5, 102.3);
        row.value_area = None;
    }
    futures[70].zdelta = key(3.0);
    futures[70].rdelta = key(0.5);
    futures[70].clv_bull = key(0.8);
    futures[70].stacked_buy = true;
    futures[75].follow_delta = key(50.0);
    let spot: Vec<initiation::SpotMinute> = (0..n)
        .map(|i| initiation::SpotMinute {
            ts_bucket: base + i as i64 * MINUTE_US,
            rdelta: key(0.0),
            cvd: key(0.0),
            whale_notional: key(0.0),
        })
        .collect();
    let direct = compute_initiation_all_history_from_histories(&futures, &spot);
    assert_eq!(direct.len(), 1);
    assert_eq!(direct[0].direction, 1);
    assert_eq!(direct[0].start_ts, futures[70].ts_bucket);
    assert_eq!(direct[0].confirm_ts, futures[75].ts_bucket + MINUTE_US);
    assert_eq!(direct[0].pivot_price, key(100.4));
    assert_eq!(direct[0].follow_through_delta_sum, key(50.0));
    assert_eq!(initiation::event_type(1), "bullish_initiation");
    let mut machine = InitiationEventStateMachine::default();
    for end in 0..n {
        machine.sync(&futures[..=end], &spot[..=end]);
    }
    assert_eq!(machine.events(), direct);
    let report = I07Initiation.evaluate(futures[75].ts_bucket, &direct, n, n);
    assert_eq!(report.rows, direct);
    assert!(I07Initiation.evaluate(futures[76].ts_bucket, &direct, n, n).rows.is_empty());
    assert_eq!(I07Initiation.code(), "initiation");
    assert!(spot_break_confirm(1, key(0.06), key(0.0)));
    assert!(!spot_break_confirm(1, key(-0.06), key(-1.0)));
}

#[test]
fn a_break_needs_price_delta_and_close() {
    let minute = |high: f64, low: f64, close: f64, z: f64| initiation::DerivedMinute {
        seq: 0,
        ts_bucket: 0,
        high: price(high),
        low: price(low),
        close: price(close),
        vah: price(100.4),
        val: price(99.6),
        zdelta: key(z),
        rdelta: key(if z < 0.0 { -0.5 } else { 0.5 }),
        follow_delta: key(0.0),
        clv_bull: key(0.9),
        clv_bear: key(0.9),
        stacked_buy: true,
        stacked_sell: true,
        spot: initiation::SpotMinute {
            ts_bucket: 0,
            rdelta: key(0.0),
            cvd: key(0.0),
            whale_notional: key(0.0),
        },
    };
    let before = minute(100.5, 99.5, 100.0, 0.0);
    assert_eq!(direction_of_break(&before, &minute(102.0, 100.5, 101.9, 3.0)), 1);
    assert_eq!(direction_of_break(&before, &minute(99.0, 98.0, 98.1, -3.0)), -1);
    assert_eq!(direction_of_break(&before, &minute(102.0, 100.5, 101.9, 1.0)), 0);
}

fn leg_measure(leg: &Leg) -> LegMeasure {
    let atr = leg.second.atr.map(number).unwrap_or(0.0);
    let (p1, p2) = if leg.high {
        (number(leg.first.high), number(leg.second.high))
    } else {
        (number(leg.first.low), number(leg.second.low))
    };
    let z = |k: Option<Key>| k.map(number).unwrap_or(0.0);
    let fut = z(leg.second.z_cvd_fut) - z(leg.first.z_cvd_fut);
    let spot = z(leg.second.z_cvd_spot) - z(leg.first.z_cvd_spot);
    LegMeasure {
        leg_eff: key((number(leg.second.close) - number(leg.first.close)).abs() / (atr + 1e-12)),
        price_diff: (p2 - p1).to_bits(),
        price_effect_z: key((p2 - p1) / (atr + 1e-12)),
        cvd_diff_fut: fut.to_bits(),
        cvd_diff_spot: spot.to_bits(),
        flow_size: key(spot.abs() + fut.abs()),
        spot_share: key(spot.abs() / (spot.abs() + fut.abs() + 1e-12)),
        p_value_price: None,
        p_value_cvd: None,
    }
}

fn divergence_histories(
    n: usize,
    amplitude: f64,
) -> (Vec<divergence::FuturesMinute>, Vec<divergence::SpotMinute>) {
    let base = at(10, 0);
    let futures = (0..n)
        .map(|idx| {
            let angle = idx as f64 / 4.0;
            let x = 100.0 + angle.sin() * amplitude + idx as f64 * 0.03;
            let cvd = 30.0 + angle.sin() * -5.0 + idx as f64 * 0.2;
            divergence::FuturesMinute {
                ts_bucket: base + idx as i64 * MINUTE_US,
                quote: quote(x - 0.2, x + 0.5, x - 0.5, x + 0.1),
                cvd: key(cvd),
                detrended_price: key(angle.sin()),
                z_cvd: Some(key((idx as f64 / 37.0).cos() * 2.0)),
                atr: key(1.0),
            }
        })
        .collect();
    let spot = (0..n)
        .map(|idx| {
            let angle = idx as f64 / 4.0;
            divergence::SpotMinute {
                ts_bucket: base + idx as i64 * MINUTE_US,
                cvd: key(25.0 + angle.sin() * 4.0 + idx as f64 * 0.15),
                z_cvd: Some(key((idx as f64 / 31.0).sin())),
            }
        })
        .collect();
    (futures, spot)
}

/// Prices that climb in waves while the standardised deltas of futures fall.
fn opposed_histories(
    n: usize,
) -> (Vec<divergence::FuturesMinute>, Vec<divergence::SpotMinute>) {
    let (mut futures, spot) = divergence_histories(n, 2.0);
    for (idx, row) in futures.iter_mut().enumerate() {
        let x = 100.0 + (idx as f64 / 4.0).sin() * 2.0 + idx as f64 * 0.1;
        row.quote = quote(x - 0.2, x + 0.5, x - 0.5, x + 0.1);
        row.z_cvd = Some(key(idx as f64 * -0.06));
    }
    (futures, spot)
}

const MODE: DivergenceSigTestMode = DivergenceSigTestMode::Threshold;

fn direct_divergence(
    futures: &[divergence::FuturesMinute],
    spot: &[divergence::SpotMinute],
) -> Vec<DivergenceEventData> {
    compute_divergence_all_history(futures, spot, MODE, key(0.05), |leg, _, _| leg_measure(leg))
}

fn bring_up(
    machine: &mut DivergenceEventStateMachine,
    futures: &[divergence::FuturesMinute],
    spot: &[divergence::SpotMinute],
) {
    machine.sync(futures, spot, MODE, key(0.05), |leg, _, _| leg_measure(leg));
}

#[test]
fn streaming_divergence_matches_direct_compute() {
    let (futures, spot) = divergence_histories(80, 2.0);
    let direct = direct_divergence(&futures, &spot);

    let mut rebuilt_machine = DivergenceEventStateMachine::default();
    bring_up(&mut rebuilt_machine, &futures, &spot);
    assert_eq!(direct, rebuilt_machine.events());

    let mut streaming_machine = DivergenceEventStateMachine::default();
    for end in 0..futures.len() {
        bring_up(&mut streaming_machine, &futures[..=end], &spot[..=end]);
    }
    assert_eq!(direct, streaming_machine.events());
}

#[test]
fn candidates_join_neighbouring_pivots() {
    let (futures, spot) = opposed_histories(400);
    let minutes: Vec<divergence::DerivedMinute> =
        (0..400).map(|i| divergence::derived(&futures[i], &spot[i], i)).collect();
    let highs: Vec<Key> = minutes.iter().map(|m| m.high).collect();
    let pivots = divergence::confirmed_high_pivots(&highs, 3, 399);
    let measures: Vec<LegMeasure> = (1..pivots.len())
        .map(|p| {
            let (i1, i2) = (pivots[p - 1].0, pivots[p].0);
            leg_measure(&Leg {
                high: true,
                idx_1: i1,
                idx_2: i2,
                first: minutes[i1],
                second: minutes[i2],
            })
        })
        .collect();
    let found = divergence::all_candidates(true, &pivots, &minutes, &measures, MODE, key(0.05));
    assert!(found.len() > 2);
    for c in &found {
        let p = pivots.iter().position(|pivot| pivot.0 == c.i2).expect("pivot");
        assert_eq!(pivots[p - 1].0, c.i1);
        let gap = (minutes[c.i2].ts_bucket - minutes[c.i1].ts_bucket) / MINUTE_US;
        assert!((3..=180).contains(&gap));
        assert_eq!(c.verdict.leg_minutes, gap);
        let (price, flow) = (sign_of(c.measure.price_diff), sign_of(c.measure.cvd_diff_fut));
        assert_eq!(price, -flow);
        let kind = if price > 0 { DivergenceKind::Bearish } else { DivergenceKind::HiddenBearish };
        assert_eq!(c.verdict.kind, kind);
        assert_eq!(c.verdict.fut_divergence_sign, -1);
    }
}

#[test]
fn divergences_are_kept_minute_by_minute_while_their_history_lasts() {
    let (futures, spot) = opposed_histories(400);
    let mut rebuilt = DivergenceEventStateMachine::default();
    bring_up(&mut rebuilt, &futures, &spot);
    let mut streaming = DivergenceEventStateMachine::default();
    for end in 0..futures.len() {
        bring_up(&mut streaming, &futures[..=end], &spot[..=end]);
    }
    let covered = |event: &DivergenceEventData| {
        event.pivot_ts_2 - 238 * MINUTE_US >= futures[0].ts_bucket
    };
    let kept: Vec<DivergenceEventData> = rebuilt.events().into_iter().filter(covered).collect();
    assert!(kept.len() > 2 && kept.len() < rebuilt.events().len());
    assert_eq!(kept, streaming.events());
    assert_eq!(rebuilt.events(), direct_divergence(&futures, &spot));
    let mut from_start = DivergenceEventStateMachine::default();
    from_start.rebuild(&futures, &spot, MODE, key(0.05), |leg, _, _| leg_measure(leg));
    assert_eq!(rebuilt.events(), from_start.events());
}

fn flat_leg(high: bool) -> Leg {
    let minute = |i: usize, x: f64, z: f64| divergence::DerivedMinute {
        seq: i,
        ts_bucket: i as i64 * MINUTE_US,
        close: key(x),
        high: key(x),
        low: key(x),
        cvd_fut: key(0.0),
        cvd_spot: key(0.0),
        detrended_price: Some(key(0.0)),
        z_cvd_fut: Some(key(z)),
        z_cvd_spot: Some(key(0.0)),
        atr: Some(key(1.0)),
    };
    Leg { high, idx_1: 130, idx_2: 140, first: minute(130, 100.0, 2.0), second: minute(140, 103.0, 0.0) }
}

#[test]
fn legs_are_judged_by_their_measures() {
    let leg = flat_leg(true);
    let verdict = judge(&leg, &leg_measure(&leg), MODE, key(0.05)).expect("divergence");
    assert_eq!(verdict.kind, DivergenceKind::Bearish);
    assert_eq!(verdict.leg_minutes, 10);
    assert_eq!(verdict.fut_divergence_sign, -1);
    assert_eq!(verdict.p_value_price, key(0.0));
    assert!(verdict.spot_price_flow_confirm);
    assert_eq!(verdict.likely_driver, Driver::Mixed);
    let low = judge(&flat_leg(false), &leg_measure(&flat_leg(false)), MODE, key(0.05));
    assert_eq!(low.map(|v| v.kind), Some(DivergenceKind::HiddenBullish));
    let mut weak = leg_measure(&leg);
    weak.price_effect_z = key(0.9);
    assert!(judge(&leg, &weak, MODE, key(0.05)).is_none());
    let mut small = leg_measure(&leg);
    small.price_diff = 0.5f64.to_bits();
    assert!(judge(&leg, &small, MODE, key(0.05)).is_some());
    small.price_diff = (0.5f64.to_bits() - 1) as u64;
    assert!(judge(&leg, &small, MODE, key(0.05)).is_none());
    let boot = DivergenceSigTestMode::BlockBootstrap;
    let mut resampled = leg_measure(&leg);
    resampled.p_value_price = Some(key(0.01));
    resampled.p_value_cvd = Some(key(0.20));
    assert!(judge(&leg, &resampled, boot, key(0.05)).is_none());
    resampled.p_value_cvd = Some(key(0.05));
    assert!(judge(&leg, &resampled, boot, key(0.05)).is_some());
    assert_eq!(leg_len(&leg), 11);
    assert_eq!(leg_seeds(&leg), ((130 << 32) ^ 140 ^ 0xA5A5_5A5A, (130 << 32) ^ 140 ^ 0x5AA5_A55A));
}

#[test]
fn the_sign_of_no_change_decides_which_market_confirms() {
    let leg = flat_leg(true);
    let confirms = |spot: f64| {
        let mut m = leg_measure(&leg);
        m.cvd_diff_spot = spot.to_bits();
        judge(&leg, &m, MODE, key(0.05)).expect("divergence").spot_price_flow_confirm
    };
    assert!(confirms(0.0) && !confirms(-0.0));
    assert!(confirms(1.0) && !confirms(-1.0) && !confirms(f64::NAN));
    assert_eq!((sign_of(0), sign_of((-0.0f64).to_bits()), sign_of(f64::NAN.to_bits())), (1, -1, 0));
    for x in [1.0, 0.02, 3.7e5, f64::MIN_POSITIVE * 4.0, f64::MAX, f64::INFINITY] {
        assert_eq!(half_key(key(x)), key(0.5 * x));
    }
}

#[test]
fn the_divergence_indicator_reports_the_last_new_event() {
    let mut machine = DivergenceEventStateMachine::default();
    let (futures, spot) = opposed_histories(400);
    bring_up(&mut machine, &futures, &spot);
    let events = machine.events();
    let last = *events.last().expect("events");
    assert_eq!(last.event_available_ts, last.pivot_ts_2 + 4 * MINUTE_US);
    let at = |ts: i64| I03Divergence.evaluate(ts, &events, 200, 200);
    let report = at(last.event_available_ts - MINUTE_US);
    assert_eq!(report.signal, DivergenceSignal::Signal(last));
    assert_eq!(report.rows.iter().map(|row| row.event).collect::<Vec<_>>(), events);
    for row in &report.rows {
        let name = row.event.divergence_type.name();
        assert_eq!(row.direction, if name.ends_with("bearish") { -1 } else { 1 });
    }
    let quiet = at(last.event_available_ts);
    assert_eq!(quiet.signal, DivergenceSignal::NoCandidate);
    assert_eq!(quiet.rows.len(), events.len());
    for (futures_minutes, spot_minutes) in [(124, 200), (200, 124)] {
        let short = I03Divergence.evaluate(0, &events, futures_minutes, spot_minutes);
        assert_eq!(short.signal, DivergenceSignal::InsufficientHistory);
        assert!(short.rows.is_empty());
    }
    assert_eq!(I03Divergence.code(), "divergence");
    assert_eq!(divergence_label("hidden_bearish"), "hidden_bearish_divergence");
    assert_eq!(divergence_label("flat"), "unknown");
    assert_eq!(DivergenceKind::Bullish.name(), "bullish");
    assert_eq!(DivergenceKind::HiddenBearish.direction(), -1);
    assert_eq!(Driver::SpotLed.name(), "spot_led");
    let (futures, _) = divergence_histories(5, 1.0);
    assert_eq!(candidate_index(&futures, futures[3].ts_bucket), Some(3));
    assert_eq!(candidate_index(&futures, 7), None);
}

#[test]
fn pivots_stand_out_on_both_sides() {
    let values: Vec<Key> = [1.0, 2.0, 1.0, 3.0, 3.0, 1.0, 0.5].iter().map(|x| key(*x)).collect();
    assert_eq!(list_pivots(&values, 1, true), vec![1, 3]);
    assert_eq!(list_pivots(&values, 2, true), vec![3]);
    assert!(check_pivot(&values, 2, 1, false));
    assert!(is_beyond(key(2.0), key(1.0), true) && !is_beyond(key(2.0), key(1.0), false));
}

#[test]
fn resampling_is_repeatable() {
    let mut rng = XorShift64::new(0);
    let mut same = XorShift64::new(1);
    assert_eq!(rng.next_u64(), same.next_u64());
    let mut one = XorShift64::new(1);
    assert_eq!(one.next_u64(), 0x4082_2041);
    for bound in 1..20 {
        assert!(rng.next_usize(bound) < bound);
    }
    let present = [true, false, true, true];
    assert_eq!(build_returns_from_option_series(&present, 3), vec![(0, 2), (2, 3)]);
    assert!(build_returns_from_option_series(&present, 2).is_empty());
    let samples = block_bootstrap_samples(40, 10, 3, 5, 7).expect("samples");
    assert_eq!(samples.len(), 3);
    for sample in &samples {
        assert_eq!(sample.len(), 10);
        assert!(sample.iter().all(|i| *i < 40));
        for block in sample.chunks(5) {
            assert!(block.windows(2).all(|w| w[1] == w[0] + 1));
        }
    }
    assert_eq!(block_bootstrap_samples(40, 10, 3, 5, 7), Some(samples));
    assert_eq!(block_bootstrap_samples(31, 10, 3, 5, 7), None);
    assert_eq!(block_bootstrap_samples(40, 1, 3, 5, 7), None);
    assert_eq!(block_bootstrap_samples(40, 10, 0, 5, 7), None);
}
