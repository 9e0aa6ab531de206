use indicator_engine::depth::{
    build_orderbook_depth_precomputed, counts_as_sample, exec_confirm, first_present, leans_with,
    peak_tick, select_heatmap_audit_ticks, spot_driven_divergence, weak_price_response, BookLevel,
    BookMinute, DepthFlags, DepthReading, I05OrderbookDepth, Weight, RAW_AUDIT_TOP_ABS_NET_LEVELS,
    RAW_AUDIT_TOP_ASK_LEVELS, RAW_AUDIT_TOP_BID_LEVELS, RAW_AUDIT_TOP_TOTAL_LEVELS,
};
use indicator_engine::liquidation::{
    aggregate_force_liq_rows, detect_local_peaks, peak_levels, LiqAgg, LiqMinute,
};
use indicator_engine::order::{key_bits, order_key, Key};
use indicator_engine::ranking::sort_desc_by_value_then_tick;
use std::collections::HashSet;

fn key(x: f64) -> Key {
    order_key(x.to_bits())
}

fn level(tick: i64, bid: f64, ask: f64) -> BookLevel {
    BookLevel {
        tick,
        bid_liquidity: key(bid),
        ask_liquidity: key(ask),
        total: key(bid + ask),
        abs_net: key((bid - ask).abs()),
    }
}

#[test]
fn orderbook_raw_audit_ticks_are_bounded() {
    let entries: Vec<BookLevel> = (1..=300_i64)
        .map(|tick| level(tick, (301 - tick) as f64, (tick % 23 + 1) as f64))
        .collect();

    let ticks = select_heatmap_audit_ticks(&entries);
    assert!(ticks.contains(&1));
    assert!(ticks.contains(&22));
    assert!(
        ticks.len()
            <= RAW_AUDIT_TOP_TOTAL_LEVELS
                + RAW_AUDIT_TOP_ABS_NET_LEVELS
                + RAW_AUDIT_TOP_BID_LEVELS
                + RAW_AUDIT_TOP_ASK_LEVELS
    );
    assert!(ticks.iter().all(|tick| (1..=300).contains(tick)));
}

#[test]
fn precomputed_heatmap_outputs_match_legacy_direct_construction() {
    let book = [(10_000i64, 8.0, 3.0), (10_100, 2.0, 7.0)];
    let levels: Vec<BookLevel> = book.iter().map(|(t, b, a)| level(*t, *b, *a)).collect();
    let precomputed = build_orderbook_depth_precomputed(&levels);

    let peak = |weight: &dyn Fn(f64, f64) -> f64| {
        let mut best: Option<(i64, f64)> = None;
        for (tick, bid, ask) in book.iter() {
            let w = weight(*bid, *ask);
            if best.map(|(_, current)| w > current).unwrap_or(true) {
                best = Some((*tick, w));
            }
        }
        best.map(|(tick, _)| tick)
    };
    let peak_bid = peak(&|bid, _| bid);
    let peak_ask = peak(&|_, ask| ask);
    let peak_total = peak(&|bid, ask| bid + ask);
    let peak_abs_net = peak(&|bid, ask| (bid - ask).abs());
    let selected: HashSet<i64> = [10_000, 10_100].into_iter().collect();

    assert_eq!(precomputed.selected_audit_ticks, selected);
    assert_eq!(precomputed.peak_bid_tick, peak_bid);
    assert_eq!(precomputed.peak_ask_tick, peak_ask);
    assert_eq!(precomputed.peak_total_tick, peak_total);
    assert_eq!(precomputed.peak_abs_net_tick, peak_abs_net);
    assert_eq!(precomputed.level_rows.len(), 2);
    for (idx, row) in precomputed.level_rows.iter().enumerate() {
        let tick = row.level.tick;
        assert_eq!(row.level, levels[idx]);
        assert_eq!(row.level_rank, (idx + 1) as i32);
        assert_eq!(row.is_peak_bid, Some(tick) == peak_bid);
        assert_eq!(row.is_peak_ask, Some(tick) == peak_ask);
        assert_eq!(row.is_peak_total, Some(tick) == peak_total);
        assert_eq!(row.is_peak_abs_net, Some(tick) == peak_abs_net);
    }
}

#[test]
fn peaks_of_the_book_are_kept() {
    let levels: Vec<BookLevel> =
        (0..200).map(|i| level(i, 1.0 + (i % 7) as f64, 2.0 + (i % 11) as f64)).collect();
    let kept = select_heatmap_audit_ticks(&levels);
    for weight in [Weight::Bid, Weight::Ask, Weight::Total, Weight::AbsNet] {
        let tick = peak_tick(&levels, weight).expect("peak");
        assert!(kept.contains(&tick));
    }
    assert_eq!(peak_tick(&levels, Weight::Bid), Some(6));
    assert_eq!(peak_tick(&[], Weight::Ask), None);
}

#[test]
fn book_rules() {
    let b = |x: f64| x.to_bits();
    assert!(leans_with(Some(b(1.0)), Some(b(2.0))));
    assert!(!leans_with(Some(b(1.0)), Some(b(-2.0))));
    assert!(!leans_with(Some(b(1.0)), None));
    assert!(!leans_with(Some(b(0.0)), Some(b(-0.0))));
    assert!(exec_confirm(b(0.0), None) && !exec_confirm(b(-1.0), None));
    assert!(exec_confirm(b(-1.0), Some(b(-0.5))));
    assert!(weak_price_response(Some(key(0.02)), Some(key(-0.4))));
    assert!(!weak_price_response(Some(key(0.03)), Some(key(0.9))));
    assert!(!weak_price_response(Some(key(0.0)), Some(key(0.39))));
    assert!(!weak_price_response(None, Some(key(0.9))));
    assert!(spot_driven_divergence(b(-13.0), b(10.0), key(12.0)));
    assert!(!spot_driven_divergence(b(-12.0), b(10.0), key(12.0)));
    assert!(!spot_driven_divergence(b(13.0), b(10.0), key(12.0)));
    for nan in [b(f64::NAN), b(-f64::NAN)] {
        assert!(!leans_with(Some(nan), Some(b(1.0))) && !leans_with(Some(b(-1.0)), Some(nan)));
        assert!(!leans_with(Some(nan), Some(nan)));
        assert!(!exec_confirm(nan, None) && !exec_confirm(nan, Some(b(1.0))));
        assert!(!exec_confirm(b(1.0), Some(nan)));
        assert!(!spot_driven_divergence(nan, b(10.0), key(12.0)));
        assert!(!spot_driven_divergence(b(-13.0), nan, key(0.0)));
    }
    assert!(leans_with(Some(b(f64::INFINITY)), Some(b(1.0))));
    assert!(counts_as_sample(key(-1.0)) && !counts_as_sample(key(1e-12)));
    assert_eq!(first_present(None, Some(3)), Some(3));
    assert_eq!(first_present(Some(1), Some(3)), Some(1));
    assert_eq!(I05OrderbookDepth.code(), "orderbook_depth");
}

#[test]
fn rows_are_ranked_by_value_then_tick() {
    let mut rows = vec![(5, key(1.0)), (3, key(2.0)), (1, key(1.0)), (9, key(-1.0))];
    sort_desc_by_value_then_tick(&mut rows);
    assert_eq!(rows, vec![(3, key(2.0)), (1, key(1.0)), (5, key(1.0)), (9, key(-1.0))]);
}

fn liq(long: f64, short: f64) -> LiqAgg {
    LiqAgg { long_liq: key(long), short_liq: key(short) }
}

#[test]
fn liquidations_are_gathered_by_tick() {
    let rows = [
        LiqMinute { ts_bucket: 0, force_liq: vec![(1, liq(1.0, 0.0)), (2, liq(2.0, 3.0))] },
        LiqMinute { ts_bucket: 60_000_000, force_liq: vec![(2, liq(4.0, 5.0))] },
    ];
    let gathered = aggregate_force_liq_rows(&rows);
    assert_eq!(gathered.len(), 2);
    assert_eq!(gathered[&1], vec![liq(1.0, 0.0)]);
    assert_eq!(gathered[&2], vec![liq(2.0, 3.0), liq(4.0, 5.0)]);
    let long_at_2: f64 =
        gathered[&2].iter().map(|a| f64::from_bits(key_bits(a.long_liq))).sum();
    assert_eq!(long_at_2, 6.0);
}

#[test]
fn liquidation_peaks_are_local() {
    let rows = [
        (1, liq(5.0, 0.0)),
        (2, liq(5.0, 1.0)),
        (3, liq(1.0, 4.0)),
        (4, liq(2.0, 0.0)),
    ];
    let peaks = detect_local_peaks(&rows, true, key(1.5));
    let expected: HashSet<i64> = [1, 2, 4].into_iter().collect();
    assert_eq!(peaks, expected);
    assert!(detect_local_peaks(&rows, true, key(5.0)).is_empty());
    let levels = peak_levels(&rows, key(1.5), key(2.0));
    let ticks: Vec<(i64, bool, bool)> =
        levels.iter().map(|l| (l.tick, l.is_long_peak, l.is_short_peak)).collect();
    assert_eq!(
        ticks,
        vec![(1, true, false), (2, true, false), (3, false, true), (4, true, false)]
    );
}

#[test]
fn keys_are_ordered_as_doubles() {
    let values = [
        f64::NEG_INFINITY, -3.5, -1e-300, 0.0, 1e-300, 2.5, f64::INFINITY,
    ];
    for a in values {
        for b in values {
            assert_eq!(a < b, key(a) < key(b));
        }
        assert_eq!(f64::from_bits(key_bits(key(a))), a);
    }
    assert_eq!(key(0.0), key(-0.0));
}

#[test]
fn the_order_of_levels_does_not_matter() {
    let levels: Vec<BookLevel> =
        (0..200).map(|i| level(i, 1.0 + (i % 7) as f64, 2.0 + (i % 11) as f64)).collect();
    let mut turned = levels.clone();
    turned.reverse();
    turned.rotate_left(17);
    assert_eq!(select_heatmap_audit_ticks(&levels), select_heatmap_audit_ticks(&turned));
}

#[test]
fn small_books_are_kept_whole() {
    let levels: Vec<BookLevel> = (0..64).map(|i| level(i, i as f64, 64.0 - i as f64)).collect();
    let kept = select_heatmap_audit_ticks(&levels);
    assert_eq!(kept.len(), 64);
    let more: Vec<BookLevel> = (0..65).map(|i| level(i, 100.0 - i as f64, 0.0)).collect();
    assert!(!select_heatmap_audit_ticks(&more).contains(&64));
}

#[test]
fn the_depth_report_says_what_book_and_trading_come_to() {
    let b = |x: f64| x.to_bits();
    let levels = [level(10, 5.0, 1.0), level(11, 2.0, 9.0)];
    let fut = BookMinute {
        delta: b(10.0),
        obi_twa: Some(b(0.3)),
        obi_k_twa: None,
        obi_k_dw_twa: Some(b(-0.5)),
    };
    let spot = BookMinute {
        delta: b(-13.0),
        obi_twa: Some(b(-0.1)),
        obi_k_twa: Some(b(0.9)),
        obi_k_dw_twa: None,
    };
    let window = DepthReading {
        fut_delta: b(-1.0),
        spot_delta: b(-1.0),
        scaled: key(1.2),
        traded_pressure: None,
        pressure: Some(b(0.2)),
        spot_pressure: None,
        response_pressure: Some(b(f64::NAN)),
        moved: Some(key(0.0)),
    };
    let mut other = window;
    other.response_pressure = Some(b(0.4));
    let report = I05OrderbookDepth.evaluate(
        &levels,
        &fut,
        &spot,
        key(12.0),
        Some(key(0.01)),
        &[window, other],
    );
    assert_eq!(report.book.peak_bid_tick, Some(10));
    assert_eq!(report.book.peak_ask_tick, Some(11));
    assert_eq!(
        report.now,
        DepthFlags {
            exec_confirm_fut: true,
            spot_confirm: true,
            weak_price_resp_fut: true,
            spot_driven_divergence: true,
        }
    );
    let none = DepthFlags {
        exec_confirm_fut: false,
        spot_confirm: false,
        weak_price_resp_fut: false,
        spot_driven_divergence: false,
    };
    let weak = DepthFlags { weak_price_resp_fut: true, ..none };
    assert_eq!(report.by_window, vec![("15m", none), ("1h", weak)]);
    let quiet = BookMinute { obi_k_dw_twa: None, ..fut };
    let still = I05OrderbookDepth.evaluate(&[], &quiet, &spot, key(12.0), None, &[window, other]);
    assert!(!still.now.weak_price_resp_fut && !still.now.spot_confirm);
    assert_eq!(still.book.peak_total_tick, None);
}
