use indicator_engine::absorption::AbsorptionEventData;
use indicator_engine::clock::{
    ceil_to, floor_to, is_on_step, minutes_between, DAY_US, MINUTE_US, SECOND_US,
};
use indicator_engine::cvd::{build_current_window_compact_series, CvdMinute};
use indicator_engine::divergence;
use indicator_engine::events::{current_events, report_current};
use indicator_engine::exhaustion;
use indicator_engine::funding::funding_windows;
use indicator_engine::history::{
    aligned_event_histories, lower_bound, lower_bound_queue, plan_sync, upper_bound, SyncPlan,
};
use indicator_engine::json::{text_of_value, Json};
use indicator_engine::order::{
    key_bits, lower_key, order_key, price_zero, upper_key, Key, Price, Quote, KEY_ONE_TICK,
};
use indicator_engine::rolling::Trail;
use indicator_engine::text::{decimal, eq_ignore_ascii_case, same_text, signed_decimal, trim};
use std::collections::VecDeque;

fn key(x: f64) -> Key {
    order_key(x.to_bits())
}

#[test]
fn instants_are_floored_towards_the_past() {
    assert_eq!(floor_to(-1, MINUTE_US), -MINUTE_US);
    assert_eq!(floor_to(-MINUTE_US, MINUTE_US), -MINUTE_US);
    assert_eq!(floor_to(90 * SECOND_US, MINUTE_US), MINUTE_US);
    assert_eq!(ceil_to(-1, MINUTE_US), 0);
    assert_eq!(ceil_to(61 * SECOND_US, MINUTE_US), 2 * MINUTE_US);
    assert_eq!(ceil_to(DAY_US, DAY_US), DAY_US);
    assert!(is_on_step(-3 * MINUTE_US, MINUTE_US));
    assert!(!is_on_step(-3 * MINUTE_US + 1, MINUTE_US));
    assert_eq!(minutes_between(0, 119 * SECOND_US), 1);
    assert_eq!(minutes_between(119 * SECOND_US, 0), -1);
}

#[test]
fn keys_order_numbers_as_they_are() {
    let numbers = [f64::NEG_INFINITY, -2.5, -1e-300, 0.0, 1e-300, 0.01, 2.5, f64::INFINITY];
    for pair in numbers.windows(2) {
        assert!(key(pair[0]) < key(pair[1]));
        assert_eq!(lower_key(key(pair[1]), key(pair[0])), key(pair[0]));
        assert_eq!(upper_key(key(pair[1]), key(pair[0])), key(pair[1]));
    }
    for x in numbers {
        assert_eq!(f64::from_bits(key_bits(key(x))), x);
    }
    assert_eq!(key(-0.0), key(0.0));
    assert_eq!(KEY_ONE_TICK, key(0.01));
}

#[test]
fn missing_prices_fall_back_to_the_last() {
    let price = |x: f64| Price {
        at: key(x),
        up_one: key(x + 0.01),
        down_one: key(x - 0.01),
        up_two: key(x + 0.02),
        down_two: key(x - 0.02),
    };
    let nothing = Quote { open: None, high: None, low: None, close: None, last: None };
    assert_eq!(nothing.high_or_zero(), price_zero());
    assert_eq!(nothing.close_or_last(), price(0.0));
    let traded = Quote { high: Some(price(3.0)), last: Some(price(2.0)), ..nothing };
    assert_eq!(traded.high_or_zero(), price(3.0));
    assert_eq!(traded.low_or_zero(), price(2.0));
    assert_eq!(traded.close_or_last(), price(2.0));
    assert_eq!(traded.close_or_zero(), price(2.0));
    let opened = Quote { open: Some(price(4.0)), ..nothing };
    assert_eq!(opened.close_or_zero(), price(4.0));
    assert_eq!(opened.close_or_last(), price_zero());
}

#[test]
fn texts_are_written_and_compared() {
    assert_eq!(decimal(0), "0");
    assert_eq!(decimal(u64::MAX), "18446744073709551615");
    assert_eq!(signed_decimal(i64::MIN), "-9223372036854775808");
    assert_eq!(signed_decimal(1204), "1204");
    assert_eq!(trim(" \t\u{a0}a b\u{2003}\n"), "a b");
    assert_eq!(trim("\u{200b}"), "\u{200b}");
    assert_eq!(trim("  "), "");
    assert!(eq_ignore_ascii_case("GzIp", "gzip"));
    assert!(!eq_ignore_ascii_case("\u{c4}", "\u{e4}"));
    assert!(same_text("a", "a") && !same_text("a", "A") && !same_text("a", "ab"));
}

#[test]
fn values_are_written_as_json() {
    assert_eq!(text_of_value(&Json::Null), "null");
    assert_eq!(text_of_value(&Json::Bool(true)), "true");
    assert_eq!(text_of_value(&Json::Number("1.5".to_string())), "1.5");
    assert_eq!(text_of_value(&Json::Text("a\"b\n".to_string())), "\"a\\\"b\\n\"");
    assert_eq!(text_of_value(&Json::Array("[1,2]".to_string())), "[1,2]");
}

fn minute(ts_bucket: i64) -> CvdMinute {
    CvdMinute { ts_bucket, open: None, high: None, low: None, close: None, last: None }
}

#[test]
fn places_in_a_history_are_found_by_time() {
    let rows: Vec<CvdMinute> = [1, 2, 2, 5].iter().map(|m| minute(m * MINUTE_US)).collect();
    assert_eq!(lower_bound(&rows, 2 * MINUTE_US), 1);
    assert_eq!(upper_bound(&rows, 2 * MINUTE_US), 3);
    assert_eq!(lower_bound(&rows, 9 * MINUTE_US), 4);
    assert_eq!(upper_bound(&rows, 0), 0);
    let queue: VecDeque<CvdMinute> = rows.iter().copied().collect();
    assert_eq!(lower_bound_queue(&queue, 3 * MINUTE_US), 3);
    assert_eq!(plan_sync(&rows, None), SyncPlan::Rebuild);
    assert_eq!(plan_sync(&rows, Some(5 * MINUTE_US)), SyncPlan::Nothing);
    assert_eq!(plan_sync(&rows, Some(2 * MINUTE_US)), SyncPlan::From(3));
    assert_eq!(plan_sync(&rows[..0], Some(0)), SyncPlan::Nothing);
    let (a, b) = aligned_event_histories(&[1, 2, 3], &["x"]);
    assert_eq!((a, b), (&[3][..], &["x"][..]));
}

#[test]
fn trails_forget_from_the_front() {
    let mut trail = Trail::new();
    for ts in [1, 4, 4, 9] {
        trail.push(ts);
    }
    assert_eq!(trail.drop_upto(4), 3);
    assert_eq!((trail.len(), trail.at(0)), (1, 9));
    assert_eq!(trail.drop_upto(8), 0);
}

#[test]
fn a_window_within_a_day_is_a_series_of_minutes() {
    let fut: Vec<CvdMinute> = (0..3).map(|m| minute(m * MINUTE_US)).collect();
    let series = build_current_window_compact_series(&fut, &fut[1..2], 0, 3 * MINUTE_US);
    assert_eq!((series.minute_points, series.day_points), (3, 0));
    let parts: Vec<(Vec<usize>, Vec<usize>)> =
        series.points.iter().map(|p| (p.parts_fut.clone(), p.parts_spot.clone())).collect();
    assert_eq!(
        parts,
        vec![(vec![0], vec![]), (vec![1], vec![0]), (vec![2], vec![])]
    );
    assert!(series.points.iter().all(|p| !p.is_day));
    assert!(build_current_window_compact_series(&fut, &fut, MINUTE_US, 0).points.is_empty());
}

#[test]
fn pivots_are_listed_with_their_confirmation() {
    let values: Vec<Key> =
        [1.0, 2.0, 3.0, 9.0, 3.0, 2.0, 1.0, 0.5, 2.0, 3.0, 4.0].iter().map(|x| key(*x)).collect();
    assert_eq!(divergence::confirmed_high_pivots(&values, 3, 10), vec![(3, 6)]);
    assert_eq!(divergence::confirmed_high_pivots(&values, 3, 5), vec![]);
    assert_eq!(divergence::confirmed_low_pivots(&values, 3, 10), vec![(7, 10)]);
    assert_eq!(exhaustion::confirmed_high_pivots(&values), vec![3]);
    assert_eq!(exhaustion::confirmed_low_pivots(&values), vec![7]);
}

#[test]
fn current_events_become_known_with_the_minute() {
    let event = |confirm: i64| AbsorptionEventData {
        direction: 1,
        start_ts: 0,
        end_ts: MINUTE_US,
        confirm_ts: confirm * MINUTE_US,
        pivot_price: key(1.0),
        price_low: key(1.0),
        price_high: key(2.0),
        key_distance_ticks: key(0.0),
        stacked_buy_imbalance: false,
        stacked_sell_imbalance: false,
        start_idx: 0,
        end_idx: 0,
        confirm_idx: 1,
    };
    let events = [event(3), event(4), event(4), event(5)];
    assert_eq!(current_events(&events, 3 * MINUTE_US), vec![event(4), event(4)]);
    let report = report_current(&events, 4 * MINUTE_US, 10, 7);
    assert_eq!(report.rows, vec![event(5)]);
    assert_eq!(report.covered_minutes, 7);
}

#[test]
fn funding_is_reported_over_seven_windows() {
    let minutes: Vec<i64> = funding_windows().iter().map(|(_, minutes)| *minutes).collect();
    assert_eq!(minutes, vec![15, 60, 240, 1440, 4320, 10_080, 43_200]);
    assert_eq!(funding_windows()[6].0, "30d");
}
