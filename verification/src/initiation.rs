//! Initiation: a break out of the value area that holds.
//!
//! A minute starts a candidate when it closes beyond the value area with strong
//! one-sided flow. The candidate becomes an event when the following minutes
//! hold the break. The events of a history can be found in one pass over it, or
//! minute by minute by [`InitiationEventStateMachine`]; on a history of
//! at least [`MIN_HISTORY_MINUTES`] minutes both find the same.

use crate::clock;
use crate::clock::MINUTE_US;
#[allow(unused_imports)]
use crate::events;
use crate::events::{current_events, report_current, Confirmed, EventReport};
use crate::history;
use crate::history::{aligned_event_histories, lower_bound, Stamped};
use crate::order;
use crate::order::{lower_key, upper_key, Key, Price, Quote, KEY_INFINITY};
use std::collections::VecDeque;
use vstd::prelude::*;

verus! {

/// Minutes over which a minute's delta is standardised.
pub const ZDELTA_LOOKBACK: usize = 60;

/// Minutes that have to hold a break.
pub const MIN_FOLLOW_MINUTES: usize = 5;

/// Minutes of history that the newest events depend on.
pub const INITIATION_INCREMENTAL_LOOKBACK_MINUTES: i64 = 70;

/// The key of 1.5, the least standardised delta of a break.
pub const ZDELTA_MIN: i64 = 0x3FF8_0000_0000_0000;

/// The key of 0.2, the least relative delta of a break.
pub const RDELTA_MIN: i64 = 0x3FC9_9999_9999_999A;

/// The key of 0.7, the least closing location of a break.
pub const CLV_MIN: i64 = 0x3FE6_6666_6666_6666;

/// The key of 0.05, the least mean relative delta by which spot confirms a break.
pub const SPOT_RDELTA_MIN: i64 = 0x3FA9_9999_9999_999A;

/// The borders of a value area.
#[derive(Clone, Copy, Debug, PartialEq, Eq)]
pub struct ValueArea {
    /// Lower border.
    pub val: Price,
    /// Upper border.
    pub vah: Price,
}

/// What a minute of futures trading contributes.
#[derive(Clone, Copy, Debug, PartialEq, Eq)]
pub struct FuturesMinute {
    /// Start of the minute.
    pub ts_bucket: i64,
    /// Prices of the minute.
    pub quote: Quote,
    /// Value area of the minute's profile, where it has one.
    pub value_area: Option<ValueArea>,
    /// Whether buying imbalances are stacked in the profile.
    pub stacked_buy: bool,
    /// Whether selling imbalances are stacked in the profile.
    pub stacked_sell: bool,
    /// Delta relative to volume.
    pub rdelta: Key,
    /// Delta standardised over the `ZDELTA_LOOKBACK` minutes that end here.
    pub zdelta: Key,
    /// Sum of the deltas of this minute and the `MIN_FOLLOW_MINUTES` before it.
    pub follow_delta: Key,
    /// Distance of the close from the low, relative to the range.
    pub clv_bull: Key,
    /// Distance of the close from the high, relative to the range.
    pub clv_bear: Key,
}

/// What a minute of spot trading contributes.
#[derive(Clone, Copy, Debug, PartialEq, Eq)]
pub struct SpotMinute {
    /// Start of the minute.
    pub ts_bucket: i64,
    /// Delta relative to volume.
    pub rdelta: Key,
    /// Cumulative delta.
    pub cvd: Key,
    /// Delta valued at the close.
    pub whale_notional: Key,
}

/// A minute as the rules see it.
#[derive(Clone, Copy, Debug, PartialEq, Eq)]
pub struct DerivedMinute {
    /// Running number of the minute.
    pub seq: usize,
    /// Start of the minute.
    pub ts_bucket: i64,
    /// High.
    pub high: Price,
    /// Low.
    pub low: Price,
    /// Close.
    pub close: Price,
    /// Upper border of the latest value area, or the high before there is one.
    pub vah: Price,
    /// Lower border of the latest value area, or the low before there is one.
    pub val: Price,
    /// Standardised delta, zero before the lookback is full.
    pub zdelta: Key,
    /// Delta relative to volume.
    pub rdelta: Key,
    /// Sum of the deltas of a follow-through that ends here.
    pub follow_delta: Key,
    /// Distance of the close from the low, relative to the range.
    pub clv_bull: Key,
    /// Distance of the close from the high, relative to the range.
    pub clv_bear: Key,
    /// Whether buying imbalances are stacked.
    pub stacked_buy: bool,
    /// Whether selling imbalances are stacked.
    pub stacked_sell: bool,
    /// The spot minute beside it.
    pub spot: SpotMinute,
}

/// A break that has not held long enough yet.
#[derive(Clone, Copy, Debug, PartialEq, Eq)]
pub struct PendingCandidate {
    /// 1 for a break upwards, -1 downwards.
    pub direction: i16,
    /// Running number of the minute that broke out.
    pub start_seq: usize,
    /// The border that was broken.
    pub pivot_price: Key,
    /// Standardised delta of the break.
    pub z_delta: Key,
    /// Lowest close after the break.
    pub min_close_post_break: Key,
    /// Highest close after the break.
    pub max_close_post_break: Key,
    /// Lowest price since the break.
    pub price_low: Key,
    /// Highest price since the break.
    pub price_high: Key,
}

/// A break that held.
#[derive(Clone, Copy, Debug, PartialEq, Eq)]
pub struct InitiationEventData {
    /// 1 for a break upwards, -1 downwards.
    pub direction: i16,
    /// Start of the minute that broke out.
    pub start_ts: i64,
    /// End of the minute that completed the follow-through.
    pub end_ts: i64,
    /// When the event is known.
    pub confirm_ts: i64,
    /// The border that was broken.
    pub pivot_price: Key,
    /// Close of the minute that broke out.
    pub break_close: Key,
    /// Lowest price from the break to the end of the follow-through.
    pub price_low: Key,
    /// Highest price from the break to the end of the follow-through.
    pub price_high: Key,
    /// Standardised delta of the break.
    pub z_delta: Key,
    /// Minutes that a break has to hold.
    pub min_follow_required_minutes: i32,
    /// Minutes that this one held.
    pub follow_through_minutes: i32,
    /// End of the follow-through.
    pub follow_through_end_ts: i64,
    /// Sum of the deltas from the break to the end of the follow-through.
    pub follow_through_delta_sum: Key,
    /// Whether the break held.
    pub follow_through_hold_ok: bool,
}

/// An event with the first instant that its history has to reach back to.
#[derive(Clone, Copy, Debug, PartialEq, Eq)]
pub struct CachedEvent {
    /// Start of the lookback of the event.
    pub required_start_ts: i64,
    /// The event.
    pub event: InitiationEventData,
}

impl Stamped for FuturesMinute {
    open spec fn at(&self) -> i64 {
        self.ts_bucket
    }

    fn ts(&self) -> (out: i64) {
        self.ts_bucket
    }
}

/// The value area in force after a minute.
pub open spec fn area_after(before: Option<ValueArea>, minute: FuturesMinute) -> Option<ValueArea> {
    match minute.value_area {
        Some(_) => minute.value_area,
        None => before,
    }
}

/// A minute as the rules see it, under the value area in force.
pub open spec fn derive_minute(
    futures: FuturesMinute,
    spot: SpotMinute,
    seq: int,
    area: Option<ValueArea>,
    full: bool,
) -> DerivedMinute {
    let high = futures.quote.spec_high();
    let low = futures.quote.spec_low();
    DerivedMinute {
        seq: seq as usize,
        ts_bucket: futures.ts_bucket,
        high,
        low,
        close: futures.quote.spec_close(),
        vah: match area {
            Some(a) => a.vah,
            None => high,
        },
        val: match area {
            Some(a) => a.val,
            None => low,
        },
        zdelta: if full {
            futures.zdelta
        } else {
            0
        },
        rdelta: futures.rdelta,
        follow_delta: futures.follow_delta,
        clv_bull: futures.clv_bull,
        clv_bear: futures.clv_bear,
        stacked_buy: futures.stacked_buy,
        stacked_sell: futures.stacked_sell,
        spot,
    }
}

/// Whether `cur` breaks upwards out of the value area: it closes more than two
/// ticks above it where `prev` did not, with strong buying.
pub open spec fn breaks_up(prev: DerivedMinute, cur: DerivedMinute) -> bool {
    &&& cur.close.at > cur.vah.up_two
    &&& prev.close.at <= prev.vah.up_two
    &&& cur.zdelta >= ZDELTA_MIN
    &&& cur.rdelta >= RDELTA_MIN
    &&& cur.stacked_buy
    &&& cur.clv_bull >= CLV_MIN
}

/// Whether `cur` breaks downwards out of the value area.
pub open spec fn breaks_down(prev: DerivedMinute, cur: DerivedMinute) -> bool {
    &&& cur.close.at < cur.val.down_two
    &&& prev.close.at >= prev.val.down_two
    &&& cur.zdelta <= -ZDELTA_MIN
    &&& cur.rdelta <= -RDELTA_MIN
    &&& cur.stacked_sell
    &&& cur.clv_bear >= CLV_MIN
}

/// The direction of the break of `cur`, zero where there is none or both.
pub open spec fn break_direction(prev: DerivedMinute, cur: DerivedMinute) -> i16 {
    if breaks_up(prev, cur) == breaks_down(prev, cur) {
        0
    } else if breaks_up(prev, cur) {
        1
    } else {
        (-1) as i16
    }
}

/// Whether a break held, given the closes after it and the flow through its end.
pub open spec fn break_held(
    direction: i16,
    start: DerivedMinute,
    min_close: Key,
    max_close: Key,
    follow_delta: Key,
) -> bool {
    if direction > 0 {
        min_close >= start.vah.down_one && follow_delta > 0
    } else {
        max_close <= start.val.up_one && follow_delta < 0
    }
}

/// The event of a break from `start` that held through `confirm`.
pub open spec fn held_event(
    direction: i16,
    start: DerivedMinute,
    confirm: DerivedMinute,
    price_low: Key,
    price_high: Key,
) -> InitiationEventData {
    InitiationEventData {
        direction,
        start_ts: start.ts_bucket,
        end_ts: (confirm.ts_bucket + MINUTE_US) as i64,
        confirm_ts: (confirm.ts_bucket + MINUTE_US) as i64,
        pivot_price: if direction > 0 {
            start.vah.at
        } else {
            start.val.at
        },
        break_close: start.close.at,
        price_low,
        price_high,
        z_delta: start.zdelta,
        min_follow_required_minutes: MIN_FOLLOW_MINUTES as i32,
        follow_through_minutes: MIN_FOLLOW_MINUTES as i32,
        follow_through_end_ts: (confirm.ts_bucket + MINUTE_US) as i64,
        follow_through_delta_sum: confirm.follow_delta,
        follow_through_hold_ok: true,
    }
}

/// The closes of the minutes `from..to`.
pub open spec fn closes(minutes: Seq<DerivedMinute>, from: int, to: int) -> Seq<Key> {
    Seq::new((to - from) as nat, |i: int| minutes[from + i].close.at)
}

/// The lows of the minutes `from..to`.
pub open spec fn lows(minutes: Seq<DerivedMinute>, from: int, to: int) -> Seq<Key> {
    Seq::new((to - from) as nat, |i: int| minutes[from + i].low.at)
}

/// The highs of the minutes `from..to`.
pub open spec fn highs(minutes: Seq<DerivedMinute>, from: int, to: int) -> Seq<Key> {
    Seq::new((to - from) as nat, |i: int| minutes[from + i].high.at)
}

/// The event of a break at index `i` that the minutes after it held, if any.
pub open spec fn event_at(minutes: Seq<DerivedMinute>, i: int) -> Option<InitiationEventData> {
    let end = i + MIN_FOLLOW_MINUTES;
    if i < 1 || end >= minutes.len() {
        None
    } else {
        let direction = break_direction(minutes[i - 1], minutes[i]);
        if direction != 0 && break_held(
            direction,
            minutes[i],
            order::lowest(closes(minutes, i + 1, end + 1)),
            order::highest(closes(minutes, i + 1, end + 1)),
            minutes[end].follow_delta,
        ) {
            Some(
                held_event(
                    direction,
                    minutes[i],
                    minutes[end],
                    order::lowest(lows(minutes, i, end + 1)),
                    order::highest(highs(minutes, i, end + 1)),
                ),
            )
        } else {
            None
        }
    }
}

/// The events of breaks before index `hi`, in the order of their breaks.
pub open spec fn events_before(minutes: Seq<DerivedMinute>, hi: int) -> Seq<InitiationEventData>
    decreases hi,
{
    if hi <= 0 {
        Seq::empty()
    } else {
        match event_at(minutes, hi - 1) {
            Some(event) => events_before(minutes, hi - 1).push(event),
            None => events_before(minutes, hi - 1),
        }
    }
}

/// The latest value area of a run of minutes.
pub open spec fn latest_area(futures: Seq<FuturesMinute>) -> Option<ValueArea>
    decreases futures.len(),
{
    if futures.len() == 0 {
        None
    } else {
        area_after(latest_area(futures.drop_last()), futures.last())
    }
}

/// A whole history as the rules see it.
pub open spec fn derived_minutes(futures: Seq<FuturesMinute>, spot: Seq<SpotMinute>) -> Seq<
    DerivedMinute,
> {
    Seq::new(
        futures.len(),
        |i: int|
            derive_minute(
                futures[i],
                spot[i],
                i,
                latest_area(futures.take(i + 1)),
                i + 1 >= ZDELTA_LOOKBACK,
            ),
    )
}

/// The fewest minutes in which one pass over a history looks for events.
pub const MIN_HISTORY_MINUTES: usize = 68;

/// The events that one pass over two histories finds.
pub open spec fn all_events(futures: Seq<FuturesMinute>, spot: Seq<SpotMinute>) -> Seq<
    InitiationEventData,
> {
    let n = history::shorter(futures.len(), spot.len());
    if n < MIN_HISTORY_MINUTES {
        Seq::empty()
    } else {
        events_before(derived_minutes(history::tail(futures, n), history::tail(spot, n)), n)
    }
}

/// The name of an event by its direction.
pub fn event_type(direction: i16) -> (out: &'static str)
    ensures
        out@ == if direction > 0 {
            "bullish_initiation"@
        } else {
            "bearish_initiation"@
        },
{
    if direction > 0 {
        "bullish_initiation"
    } else {
        "bearish_initiation"
    }
}

/// Whether spot trading confirms a break: its mean relative delta leans at least
/// 0.05 in the direction of the break and its cumulative delta does not lean
/// against it.
pub fn spot_break_confirm(direction: i16, spot_rdelta_mean: Key, spot_cvd_change: Key) -> (out: bool)
    requires
        -1 <= direction <= 1,
    ensures
        direction == 1 ==> out == (spot_rdelta_mean >= SPOT_RDELTA_MIN && spot_cvd_change >= 0),
        direction == -1 ==> out == (spot_rdelta_mean <= -SPOT_RDELTA_MIN && spot_cvd_change <= 0),
        direction == 0 ==> !out,
{
    if direction > 0 {
        spot_rdelta_mean >= SPOT_RDELTA_MIN && spot_cvd_change >= 0
    } else if direction < 0 {
        spot_rdelta_mean <= -SPOT_RDELTA_MIN && spot_cvd_change <= 0
    } else {
        false
    }
}

/// The direction of the break of `cur`, zero where there is none or both.
pub fn direction_of_break(prev: &DerivedMinute, cur: &DerivedMinute) -> (out: i16)
    ensures
        out == break_direction(*prev, *cur),
        out == 0 || out == 1 || out == -1,
{
    let bull: bool = cur.close.at > cur.vah.up_two && prev.close.at <= prev.vah.up_two && cur.zdelta
        >= ZDELTA_MIN && cur.rdelta >= RDELTA_MIN && cur.stacked_buy && cur.clv_bull >= CLV_MIN;
    let bear: bool = cur.close.at < cur.val.down_two && prev.close.at >= prev.val.down_two
        && cur.zdelta <= -ZDELTA_MIN && cur.rdelta <= -RDELTA_MIN && cur.stacked_sell
        && cur.clv_bear >= CLV_MIN;
    if bull == bear {
        0
    } else if bull {
        1
    } else {
        -1
    }
}

/// A minute as the rules see it, under the value area in force.
fn derived(
    futures: &FuturesMinute,
    spot: &SpotMinute,
    seq: usize,
    area: Option<ValueArea>,
    full: bool,
) -> (out: DerivedMinute)
    ensures
        out == derive_minute(*futures, *spot, seq as int, area, full),
{
    let high: Price = futures.quote.high_or_zero();
    let low: Price = futures.quote.low_or_zero();
    DerivedMinute {
        seq,
        ts_bucket: futures.ts_bucket,
        high,
        low,
        close: futures.quote.close_or_zero(),
        vah: match area {
            Some(a) => a.vah,
            None => high,
        },
        val: match area {
            Some(a) => a.val,
            None => low,
        },
        zdelta: if full {
            futures.zdelta
        } else {
            0
        },
        rdelta: futures.rdelta,
        follow_delta: futures.follow_delta,
        clv_bull: futures.clv_bull,
        clv_bear: futures.clv_bear,
        stacked_buy: futures.stacked_buy,
        stacked_sell: futures.stacked_sell,
        spot: *spot,
    }
}

/// Whether a break held, given the closes after it and the flow through its end.
fn held(
    direction: i16,
    start: &DerivedMinute,
    min_close: Key,
    max_close: Key,
    follow_delta: Key,
) -> (out: bool)
    ensures
        out == break_held(direction, *start, min_close, max_close, follow_delta),
{
    if direction > 0 {
        min_close >= start.vah.down_one && follow_delta > 0
    } else {
        max_close <= start.val.up_one && follow_delta < 0
    }
}

/// The event of a break from `start` that held through `confirm`.
fn event_of(
    direction: i16,
    start: &DerivedMinute,
    confirm: &DerivedMinute,
    price_low: Key,
    price_high: Key,
) -> (out: InitiationEventData)
    requires
        clock::is_instant(confirm.ts_bucket),
    ensures
        out == held_event(direction, *start, *confirm, price_low, price_high),
{
    let end: i64 = confirm.ts_bucket + MINUTE_US;
    InitiationEventData {
        direction,
        start_ts: start.ts_bucket,
        end_ts: end,
        confirm_ts: end,
        pivot_price: if direction > 0 {
            start.vah.at
        } else {
            start.val.at
        },
        break_close: start.close.at,
        price_low,
        price_high,
        z_delta: start.zdelta,
        min_follow_required_minutes: 5,
        follow_through_minutes: 5,
        follow_through_end_ts: end,
        follow_through_delta_sum: confirm.follow_delta,
        follow_through_hold_ok: true,
    }
}

/// A whole history as the rules see it.
fn derive_all(futures: &[FuturesMinute], spot: &[SpotMinute]) -> (out: Vec<DerivedMinute>)
    requires
        futures@.len() == spot@.len(),
    ensures
        out@ == derived_minutes(futures@, spot@),
{
    let mut out: Vec<DerivedMinute> = Vec::new();
    let mut area: Option<ValueArea> = None;
    let mut i: usize = 0;
    proof {
        assert(futures@.take(0) =~= Seq::empty());
    }
    while i < futures.len()
        invariant
            i <= futures@.len(),
            futures@.len() == spot@.len(),
            area == latest_area(futures@.take(i as int)),
            out@ =~= derived_minutes(futures@, spot@).take(i as int),
        decreases futures@.len() - i,
    {
        let minute: FuturesMinute = futures[i];
        if minute.value_area.is_some() {
            area = minute.value_area;
        }
        proof {
            assert(futures@.take(i + 1).drop_last() =~= futures@.take(i as int));
            assert(futures@.take(i + 1).last() == minute);
        }
        out.push(derived(&minute, &spot[i], i, area, i + 1 >= ZDELTA_LOOKBACK));
        i += 1;
    }
    out
}

/// The events of two histories, found in one pass over their common end.
pub fn compute_initiation_all_history_from_histories(
    history_futures: &[FuturesMinute],
    history_spot: &[SpotMinute],
) -> (out: Vec<InitiationEventData>)
    requires
        forall|i: int|
            0 <= i < history_futures@.len() ==> clock::is_instant(#[trigger] history_futures@[i].ts_bucket),
    ensures
        out@ == all_events(history_futures@, history_spot@),
{
    let (futures, spot) = aligned_event_histories(history_futures, history_spot);
    let n: usize = futures.len();
    let mut out: Vec<InitiationEventData> = Vec::new();
    if n < MIN_HISTORY_MINUTES {
        return out;
    }
    let minutes: Vec<DerivedMinute> = derive_all(futures, spot);
    let mut i: usize = 1;
    proof {
        assert(events_before(minutes@, 1) =~= Seq::empty()) by {
            reveal_with_fuel(events_before, 2);
        }
    }
    while i < n - MIN_FOLLOW_MINUTES
        invariant
            1 <= i <= n,
            n == minutes@.len(),
            n >= MIN_HISTORY_MINUTES,
            forall|j: int| 0 <= j < n ==> clock::is_instant(#[trigger] minutes@[j].ts_bucket),
            out@ == events_before(minutes@, i as int),
        decreases n - i,
    {
        let direction: i16 = direction_of_break(&minutes[i - 1], &minutes[i]);
        if direction != 0 {
            let end: usize = i + MIN_FOLLOW_MINUTES;
            let (min_close, max_close, price_low, price_high) = follow_extremes(&minutes, i, end);
            if held(direction, &minutes[i], min_close, max_close, minutes[end].follow_delta) {
                out.push(event_of(direction, &minutes[i], &minutes[end], price_low, price_high));
            }
        }
        i += 1;
    }
    proof {
        lemma_no_late_events(minutes@, i as int, n as int);
    }
    out
}

/// Breaks whose follow-through is not complete give no events.
proof fn lemma_no_late_events(minutes: Seq<DerivedMinute>, lo: int, hi: int)
    requires
        0 <= lo <= hi,
        lo + MIN_FOLLOW_MINUTES >= minutes.len(),
    ensures
        events_before(minutes, hi) == events_before(minutes, lo),
    decreases hi - lo,
{
    if lo < hi {
        lemma_no_late_events(minutes, lo, hi - 1);
    }
}

/// The lowest and highest close after `start` through `end`, and the lowest and
/// highest price from `start` through `end`.
fn follow_extremes(minutes: &Vec<DerivedMinute>, start: usize, end: usize) -> (out: (
    Key,
    Key,
    Key,
    Key,
))
    requires
        start <= end < minutes@.len(),
    ensures
        out.0 == order::lowest(closes(minutes@, start + 1, end + 1)),
        out.1 == order::highest(closes(minutes@, start + 1, end + 1)),
        out.2 == order::lowest(lows(minutes@, start as int, end + 1)),
        out.3 == order::highest(highs(minutes@, start as int, end + 1)),
{
    let mut min_close: Key = KEY_INFINITY;
    let mut max_close: Key = -KEY_INFINITY;
    let mut price_low: Key = lower_key(KEY_INFINITY, minutes[start].low.at);
    let mut price_high: Key = upper_key(-KEY_INFINITY, minutes[start].high.at);
    let mut i: usize = start;
    proof {
        lemma_extremes_step(minutes@, start as int, start as int);
        assert(closes(minutes@, start + 1, start + 1) =~= Seq::empty());
        assert(lows(minutes@, start as int, start as int) =~= Seq::empty());
        assert(highs(minutes@, start as int, start as int) =~= Seq::empty());
    }
    while i < end
        invariant
            start <= i <= end < minutes@.len(),
            min_close == order::lowest(closes(minutes@, start + 1, i + 1)),
            max_close == order::highest(closes(minutes@, start + 1, i + 1)),
            price_low == order::lowest(lows(minutes@, start as int, i + 1)),
            price_high == order::highest(highs(minutes@, start as int, i + 1)),
        decreases end - i,
    {
        i += 1;
        proof {
            lemma_extremes_step(minutes@, start as int, i as int);
        }
        min_close = lower_key(min_close, minutes[i].close.at);
        max_close = upper_key(max_close, minutes[i].close.at);
        price_low = lower_key(price_low, minutes[i].low.at);
        price_high = upper_key(price_high, minutes[i].high.at);
    }
    (min_close, max_close, price_low, price_high)
}

/// What one more minute does to the extremes of a run.
proof fn lemma_extremes_step(minutes: Seq<DerivedMinute>, start: int, i: int)
    requires
        0 <= start <= i < minutes.len(),
    ensures
        i > start ==> order::lowest(closes(minutes, start + 1, i + 1)) == order::lower(
            order::lowest(closes(minutes, start + 1, i)),
            minutes[i].close.at,
        ),
        i > start ==> order::highest(closes(minutes, start + 1, i + 1)) == order::upper(
            order::highest(closes(minutes, start + 1, i)),
            minutes[i].close.at,
        ),
        order::lowest(lows(minutes, start, i + 1)) == order::lower(
            order::lowest(lows(minutes, start, i)),
            minutes[i].low.at,
        ),
        order::highest(highs(minutes, start, i + 1)) == order::upper(
            order::highest(highs(minutes, start, i)),
            minutes[i].high.at,
        ),
{
    if i > start {
        assert(closes(minutes, start + 1, i + 1).drop_last() =~= closes(minutes, start + 1, i));
    }
    assert(lows(minutes, start, i + 1).drop_last() =~= lows(minutes, start, i));
    assert(highs(minutes, start, i + 1).drop_last() =~= highs(minutes, start, i));
}

/// The state of the machine as mathematics sees it.
#[verifier::ext_equal]
pub struct MachineState {
    /// The minutes kept, oldest first.
    pub minutes: Seq<DerivedMinute>,
    /// The breaks that are not settled, oldest first.
    pub pending: Seq<PendingCandidate>,
    /// The events found, oldest first.
    pub events: Seq<CachedEvent>,
    /// Start of the newest minute.
    pub last_ts: Option<i64>,
    /// The value area in force.
    pub area: Option<ValueArea>,
    /// The running number of the next minute.
    pub next_seq: int,
}

/// A machine that has seen nothing.
pub open spec fn fresh() -> MachineState {
    MachineState {
        minutes: Seq::empty(),
        pending: Seq::empty(),
        events: Seq::empty(),
        last_ts: None,
        area: None,
        next_seq: 0,
    }
}

/// A candidate after one more minute.
pub open spec fn advanced(candidate: PendingCandidate, minute: DerivedMinute) -> PendingCandidate {
    PendingCandidate {
        min_close_post_break: order::lower(candidate.min_close_post_break, minute.close.at),
        max_close_post_break: order::upper(candidate.max_close_post_break, minute.close.at),
        price_low: order::lower(candidate.price_low, minute.low.at),
        price_high: order::upper(candidate.price_high, minute.high.at),
        ..candidate
    }
}

/// The candidate of a break at `minute`.
pub open spec fn started(direction: i16, minute: DerivedMinute) -> PendingCandidate {
    PendingCandidate {
        direction,
        start_seq: minute.seq,
        pivot_price: if direction > 0 {
            minute.vah.at
        } else {
            minute.val.at
        },
        z_delta: minute.zdelta,
        min_close_post_break: KEY_INFINITY,
        max_close_post_break: (-KEY_INFINITY) as i64,
        price_low: minute.low.at,
        price_high: minute.high.at,
    }
}

/// The minute with the given running number, if it is kept.
pub open spec fn minute_of(minutes: Seq<DerivedMinute>, seq: int) -> Option<DerivedMinute> {
    let first = minutes[0].seq;
    if minutes.len() > 0 && first <= seq < first + minutes.len() {
        Some(minutes[seq - first])
    } else {
        None
    }
}

/// The event of a candidate whose follow-through is complete, if it held.
pub open spec fn settled_event(
    minutes: Seq<DerivedMinute>,
    candidate: PendingCandidate,
    confirm_seq: int,
) -> Option<CachedEvent> {
    match (minute_of(minutes, candidate.start_seq as int), minute_of(minutes, confirm_seq)) {
        (Some(start), Some(confirm)) => {
            if confirm_seq == candidate.start_seq + MIN_FOLLOW_MINUTES && break_held(
                candidate.direction,
                start,
                candidate.min_close_post_break,
                candidate.max_close_post_break,
                confirm.follow_delta,
            ) {
                Some(
                    CachedEvent {
                        required_start_ts: (start.ts_bucket - (ZDELTA_LOOKBACK - 1)
                            * MINUTE_US) as i64,
                        event: held_event(
                            candidate.direction,
                            start,
                            confirm,
                            candidate.price_low,
                            candidate.price_high,
                        ),
                    },
                )
            } else {
                None
            }
        },
        _ => None,
    }
}

/// The candidates that are still open after `minute`.
pub open spec fn open_after(pending: Seq<PendingCandidate>, minute: DerivedMinute) -> Seq<
    PendingCandidate,
>
    decreases pending.len(),
{
    if pending.len() == 0 {
        Seq::empty()
    } else {
        let rest = open_after(pending.drop_last(), minute);
        let candidate = pending.last();
        if minute.seq <= candidate.start_seq {
            rest.push(candidate)
        } else if minute.seq < candidate.start_seq + MIN_FOLLOW_MINUTES {
            rest.push(advanced(candidate, minute))
        } else {
            rest
        }
    }
}

/// The events that `minute`, the newest of `minutes`, completes.
pub open spec fn settled_by(
    minutes: Seq<DerivedMinute>,
    pending: Seq<PendingCandidate>,
    minute: DerivedMinute,
) -> Seq<CachedEvent>
    decreases pending.len(),
{
    if pending.len() == 0 {
        Seq::empty()
    } else {
        let rest = settled_by(minutes, pending.drop_last(), minute);
        let candidate = pending.last();
        if minute.seq < candidate.start_seq + MIN_FOLLOW_MINUTES {
            rest
        } else {
            match settled_event(minutes, advanced(candidate, minute), minute.seq as int) {
                Some(event) => rest.push(event),
                None => rest,
            }
        }
    }
}

impl MachineState {
    /// The state after one more pair of minutes.
    pub open spec fn append(self, futures: FuturesMinute, spot: SpotMinute) -> MachineState {
        let area = area_after(self.area, futures);
        let full = self.minutes.len() + 1 >= ZDELTA_LOOKBACK;
        let minute = derive_minute(futures, spot, self.next_seq, area, full);
        let minutes = self.minutes.push(minute);
        let open = open_after(self.pending, minute);
        let direction = break_direction(self.minutes.last(), minute);
        MachineState {
            minutes,
            pending: if self.minutes.len() > 0 && full && direction != 0 {
                open.push(started(direction, minute))
            } else {
                open
            },
            events: self.events + settled_by(minutes, self.pending, minute),
            last_ts: self.last_ts,
            area,
            next_seq: self.next_seq + 1,
        }
    }

    /// The state after a run of pairs of minutes.
    pub open spec fn replay(self, futures: Seq<FuturesMinute>, spot: Seq<SpotMinute>) -> MachineState
        decreases futures.len(),
    {
        if futures.len() == 0 {
            self
        } else {
            self.replay(futures.drop_last(), spot.drop_last()).append(futures.last(), spot.last())
        }
    }

    /// The same state with another newest minute.
    pub open spec fn ending_at(self, last_ts: Option<i64>) -> MachineState {
        MachineState { last_ts, ..self }
    }

    /// The state without what reaches back before `first_ts`.
    pub open spec fn pruned(self, first_ts: i64) -> MachineState {
        let minutes = history::drop_while(self.minutes, starts_before(first_ts));
        MachineState {
            minutes,
            events: history::drop_while(self.events, needs_before(first_ts)),
            pending: history::drop_while(self.pending, start_is_gone(minutes, first_ts)),
            ..self
        }
    }

    /// The state that running the machine over two histories leaves.
    pub open spec fn rebuilt(futures: Seq<FuturesMinute>, spot: Seq<SpotMinute>) -> MachineState {
        let n = history::shorter(futures.len(), spot.len());
        let f = history::tail(futures, n);
        fresh().replay(f, history::tail(spot, n)).ending_at(
            if n == 0 {
                None
            } else {
                Some(f.last().ts_bucket)
            },
        )
    }

    /// The state after the machine has been brought up to two histories.
    pub open spec fn synced(self, futures: Seq<FuturesMinute>, spot: Seq<SpotMinute>) -> MachineState {
        let n = history::shorter(futures.len(), spot.len());
        let f = history::tail(futures, n);
        let s = history::tail(spot, n);
        if n == 0 {
            fresh()
        } else {
            match self.last_ts {
                Some(seen) if seen < f.last().ts_bucket => {
                    let kept = self.pruned(f[0].ts_bucket);
                    let k = history::first_at_or_after(history::stamps(f), (seen + MINUTE_US) as i64);
                    if k == 0 && kept.minutes.len() == 0 {
                        MachineState::rebuilt(f, s)
                    } else {
                        kept.replay(f.subrange(k, n), s.subrange(k, n)).ending_at(
                            Some(f.last().ts_bucket),
                        )
                    }
                },
                _ => MachineState::rebuilt(f, s),
            }
        }
    }

    /// The minutes are numbered without gaps up to the newest.
    pub open spec fn numbered(self) -> bool {
        &&& 0 <= self.minutes.len() <= self.next_seq
        &&& forall|i: int|
            0 <= i < self.minutes.len() ==> #[trigger] self.minutes[i].seq == self.next_seq
                - self.minutes.len() + i
        &&& forall|i: int|
            0 <= i < self.minutes.len() ==> clock::is_instant(#[trigger] self.minutes[i].ts_bucket)
    }

    /// Each open candidate started at a kept minute no longer than a follow-through
    /// ago, later candidates later.
    pub open spec fn candidates_open(self) -> bool {
        &&& forall|i: int|
            0 <= i < self.pending.len() ==> {
                &&& self.next_seq - self.minutes.len() <= (#[trigger] self.pending[i]).start_seq
                &&& self.pending[i].start_seq < self.next_seq
                &&& self.next_seq <= self.pending[i].start_seq + MIN_FOLLOW_MINUTES
            }
        &&& forall|i: int, j: int|
            0 <= i < j < self.pending.len() ==> (#[trigger] self.pending[i]).start_seq < (
            #[trigger] self.pending[j]).start_seq
    }

    /// What holds between operations.
    pub open spec fn well_formed(self) -> bool {
        &&& self.numbered()
        &&& self.candidates_open()
        &&& self.last_ts matches Some(ts) ==> clock::is_instant(ts)
    }
}

/// Of minutes: starts before `first_ts`.
pub open spec fn starts_before(first_ts: i64) -> spec_fn(DerivedMinute) -> bool {
    |minute: DerivedMinute| minute.ts_bucket < first_ts
}

/// Of events: needs history before `first_ts`.
pub open spec fn needs_before(first_ts: i64) -> spec_fn(CachedEvent) -> bool {
    |entry: CachedEvent| entry.required_start_ts < first_ts
}

/// Of candidates: the minute that it started at is not kept.
pub open spec fn start_is_gone(minutes: Seq<DerivedMinute>, first_ts: i64) -> spec_fn(
    PendingCandidate,
) -> bool {
    |candidate: PendingCandidate|
        match minute_of(minutes, candidate.start_seq as int) {
            Some(minute) => minute.ts_bucket < first_ts,
            None => true,
        }
}

/// Finds initiation events minute by minute.
pub struct InitiationEventStateMachine {
    minutes: VecDeque<DerivedMinute>,
    pending: VecDeque<PendingCandidate>,
    events: VecDeque<CachedEvent>,
    last_ts: Option<i64>,
    area: Option<ValueArea>,
    next_seq: usize,
}

impl View for InitiationEventStateMachine {
    type V = MachineState;

    closed spec fn view(&self) -> MachineState {
        MachineState {
            minutes: self.minutes@,
            pending: self.pending@,
            events: self.events@,
            last_ts: self.last_ts,
            area: self.area,
            next_seq: self.next_seq as int,
        }
    }
}

impl Default for InitiationEventStateMachine {
    fn default() -> (out: Self)
        ensures
            out@ == fresh(),
            out@.well_formed(),
    {
        InitiationEventStateMachine {
            minutes: VecDeque::new(),
            pending: VecDeque::new(),
            events: VecDeque::new(),
            last_ts: None,
            area: None,
            next_seq: 0,
        }
    }
}

impl InitiationEventStateMachine {
    /// The place of the minute with the given running number.
    fn offset_of(&self, seq: usize) -> (out: Option<usize>)
        requires
            self@.numbered(),
        ensures
            out is Some <==> minute_of(self@.minutes, seq as int) is Some,
            out matches Some(i) ==> i < self@.minutes.len() && minute_of(self@.minutes, seq as int)
                == Some(self@.minutes[i as int]),
    {
        if self.minutes.len() == 0 {
            return None;
        }
        let first: usize = self.minutes[0].seq;
        if seq < first || seq - first >= self.minutes.len() {
            return None;
        }
        Some(seq - first)
    }

    /// The event of a candidate whose follow-through is complete, if it held.
    fn build_event(&self, candidate: &PendingCandidate, confirm_seq: usize) -> (out: Option<
        CachedEvent,
    >)
        requires
            self@.numbered(),
            candidate.start_seq + MIN_FOLLOW_MINUTES <= usize::MAX,
        ensures
            out == settled_event(self@.minutes, *candidate, confirm_seq as int),
    {
        let start: DerivedMinute = match self.offset_of(candidate.start_seq) {
            Some(i) => self.minutes[i],
            None => {
                return None;
            },
        };
        let confirm: DerivedMinute = match self.offset_of(confirm_seq) {
            Some(i) => self.minutes[i],
            None => {
                return None;
            },
        };
        if confirm_seq != candidate.start_seq + MIN_FOLLOW_MINUTES {
            return None;
        }
        if !held(
            candidate.direction,
            &start,
            candidate.min_close_post_break,
            candidate.max_close_post_break,
            confirm.follow_delta,
        ) {
            return None;
        }
        Some(
            CachedEvent {
                required_start_ts: start.ts_bucket - 59 * MINUTE_US,
                event: event_of(
                    candidate.direction,
                    &start,
                    &confirm,
                    candidate.price_low,
                    candidate.price_high,
                ),
            },
        )
    }

    /// The events found so far, oldest first.
    pub fn events(&self) -> (out: Vec<InitiationEventData>)
        ensures
            out@ == self@.events.map_values(|entry: CachedEvent| entry.event),
    {
        let mut out: Vec<InitiationEventData> = Vec::new();
        let mut i: usize = 0;
        while i < self.events.len()
            invariant
                i <= self@.events.len(),
                out@ =~= self@.events.map_values(|entry: CachedEvent| entry.event).take(i as int),
            decreases self@.events.len() - i,
        {
            out.push(self.events[i].event);
            i += 1;
        }
        out
    }

    /// Carries the open candidates through the newest minute: those whose
    /// follow-through is complete become events or are given up.
    fn update_pending(&mut self, current: DerivedMinute)
        requires
            old(self)@.numbered(),
            forall|i: int|
                0 <= i < old(self)@.pending.len() ==> (#[trigger] old(self)@.pending[i]).start_seq
                    + MIN_FOLLOW_MINUTES <= usize::MAX,
        ensures
            final(self)@ == (MachineState {
                pending: open_after(old(self)@.pending, current),
                events: old(self)@.events + settled_by(
                    old(self)@.minutes,
                    old(self)@.pending,
                    current,
                ),
                ..old(self)@
            }),
    {
        let mut retained: VecDeque<PendingCandidate> = VecDeque::new();
        let mut i: usize = 0;
        proof {
            assert(self.pending@.take(0) =~= Seq::empty());
        }
        while i < self.pending.len()
            invariant
                i <= self.pending@.len(),
                self@.numbered(),
                self@ == (MachineState { events: self@.events, ..old(self)@ }),
                forall|j: int|
                    0 <= j < self.pending@.len() ==> (#[trigger] self.pending@[j]).start_seq
                        + MIN_FOLLOW_MINUTES <= usize::MAX,
                retained@ =~= open_after(self.pending@.take(i as int), current),
                self.events@ =~= old(self)@.events + settled_by(
                    old(self)@.minutes,
                    self.pending@.take(i as int),
                    current,
                ),
            decreases self.pending@.len() - i,
        {
            let mut candidate: PendingCandidate = self.pending[i];
            proof {
                assert(self.pending@.take(i + 1).drop_last() =~= self.pending@.take(i as int));
                assert(self.pending@.take(i + 1).last() == candidate);
            }
            i += 1;
            if current.seq <= candidate.start_seq {
                retained.push_back(candidate);
                continue;
            }
            candidate.min_close_post_break = lower_key(
                candidate.min_close_post_break,
                current.close.at,
            );
            candidate.max_close_post_break = upper_key(
                candidate.max_close_post_break,
                current.close.at,
            );
            candidate.price_low = lower_key(candidate.price_low, current.low.at);
            candidate.price_high = upper_key(candidate.price_high, current.high.at);
            if current.seq < candidate.start_seq + MIN_FOLLOW_MINUTES {
                retained.push_back(candidate);
                continue;
            }
            if let Some(event) = self.build_event(&candidate, current.seq) {
                self.events.push_back(event);
            }
        }
        proof {
            assert(self.pending@.take(i as int) =~= old(self)@.pending);
        }
        self.pending = retained;
    }

    /// Opens a candidate where the newest minute breaks out of the value area.
    fn maybe_start_candidate(&mut self)
        requires
            old(self)@.minutes.len() > 0,
        ensures
            final(self)@ == (MachineState {
                pending: {
                    let n = old(self)@.minutes.len() as int;
                    let direction = break_direction(
                        old(self)@.minutes[n - 2],
                        old(self)@.minutes[n - 1],
                    );
                    if n >= 2 && n >= ZDELTA_LOOKBACK && direction != 0 {
                        old(self)@.pending.push(started(direction, old(self)@.minutes[n - 1]))
                    } else {
                        old(self)@.pending
                    }
                },
                ..old(self)@
            }),
    {
        let n: usize = self.minutes.len();
        if n < 2 || n < ZDELTA_LOOKBACK {
            return;
        }
        let current: DerivedMinute = self.minutes[n - 1];
        let direction: i16 = direction_of_break(&self.minutes[n - 2], &current);
        if direction == 0 {
            return;
        }
        self.pending.push_back(
            PendingCandidate {
                direction,
                start_seq: current.seq,
                pivot_price: if direction > 0 {
                    current.vah.at
                } else {
                    current.val.at
                },
                z_delta: current.zdelta,
                min_close_post_break: KEY_INFINITY,
                max_close_post_break: -KEY_INFINITY,
                price_low: current.low.at,
                price_high: current.high.at,
            },
        );
    }

    /// Takes in one more pair of minutes.
    fn append_pair(&mut self, futures: &FuturesMinute, spot: &SpotMinute)
        requires
            old(self)@.well_formed(),
            old(self)@.next_seq + MIN_FOLLOW_MINUTES < usize::MAX,
            clock::is_instant(futures.ts_bucket),
        ensures
            final(self)@ == old(self)@.append(*futures, *spot),
            final(self)@.well_formed(),
    {
        if futures.value_area.is_some() {
            self.area = futures.value_area;
        }
        let full: bool = self.minutes.len() >= ZDELTA_LOOKBACK - 1;
        let minute: DerivedMinute = derived(futures, spot, self.next_seq, self.area, full);
        self.next_seq += 1;
        self.minutes.push_back(minute);
        self.update_pending(minute);
        self.maybe_start_candidate();
        proof {
            lemma_open_after(old(self)@, minute);
            let n = old(self)@.minutes.len() as int;
            if n > 0 {
                assert(self@.minutes[n - 1] == old(self)@.minutes.last());
            }
            assert(self@ =~= old(self)@.append(*futures, *spot));
        }
    }

    /// Forgets what reaches back before `first_ts`.
    fn prune_before(&mut self, first_ts: i64)
        requires
            old(self)@.well_formed(),
        ensures
            final(self)@ == old(self)@.pruned(first_ts),
            final(self)@.well_formed(),
    {
        while self.minutes.len() > 0 && self.minutes[0].ts_bucket < first_ts
            invariant
                history::drop_while(self.minutes@, starts_before(first_ts)) == history::drop_while(
                    old(self)@.minutes,
                    starts_before(first_ts),
                ),
                self@ == (MachineState { minutes: self@.minutes, ..old(self)@ }),
            decreases self.minutes@.len(),
        {
            let removed: Option<DerivedMinute> = self.minutes.pop_front();
        }
        let ghost minutes = history::drop_while(old(self)@.minutes, starts_before(first_ts));
        assert(self.minutes@ == minutes);
        while self.events.len() > 0 && self.events[0].required_start_ts < first_ts
            invariant
                history::drop_while(self.events@, needs_before(first_ts)) == history::drop_while(
                    old(self)@.events,
                    needs_before(first_ts),
                ),
                self@ == (MachineState { minutes, events: self@.events, ..old(self)@ }),
            decreases self.events@.len(),
        {
            let removed: Option<CachedEvent> = self.events.pop_front();
        }
        let ghost gone = start_is_gone(minutes, first_ts);
        proof {
            let k = history::lemma_drop_while(old(self)@.minutes, starts_before(first_ts));
            assert(self@.numbered());
        }
        while self.pending.len() > 0 && self.start_gone(self.pending[0].start_seq, first_ts)
            invariant
                gone == start_is_gone(minutes, first_ts),
                history::drop_while(self.pending@, gone) == history::drop_while(old(self)@.pending, gone),
                self@ == (MachineState {
                    minutes,
                    events: history::drop_while(old(self)@.events, needs_before(first_ts)),
                    pending: self@.pending,
                    ..old(self)@
                }),
                self@.numbered(),
            decreases self.pending@.len(),
        {
            let removed: Option<PendingCandidate> = self.pending.pop_front();
        }
        proof {
            let k = history::lemma_drop_while(old(self)@.pending, gone);
            if self.pending@.len() > 0 {
                assert(self.pending@[0] == old(self)@.pending[k]);
                assert(!gone(self.pending@[0]));
                assert forall|i: int| 0 <= i < self.pending@.len() implies self.pending@[0].start_seq
                    <= (#[trigger] self.pending@[i]).start_seq by {
                    assert(self.pending@[i] == old(self)@.pending[k + i]);
                }
            }
        }
    }

    /// Whether the minute with the given running number is not kept.
    fn start_gone(&self, seq: usize, first_ts: i64) -> (out: bool)
        requires
            self@.numbered(),
        ensures
            out == match minute_of(self@.minutes, seq as int) {
                Some(minute) => minute.ts_bucket < first_ts,
                None => true,
            },
    {
        match self.offset_of(seq) {
            Some(i) => self.minutes[i].ts_bucket < first_ts,
            None => true,
        }
    }

    /// Takes in a run of pairs of minutes.
    fn append_all(&mut self, futures: &[FuturesMinute], spot: &[SpotMinute])
        requires
            futures@.len() == spot@.len(),
            old(self)@.well_formed(),
            old(self)@.next_seq + futures@.len() + MIN_FOLLOW_MINUTES <= usize::MAX,
            forall|i: int| 0 <= i < futures@.len() ==> clock::is_instant(#[trigger] futures@[i].ts_bucket),
        ensures
            final(self)@ == old(self)@.replay(futures@, spot@),
            final(self)@.well_formed(),
    {
        let mut i: usize = 0;
        proof {
            assert(futures@.take(0) =~= Seq::empty());
        }
        while i < futures.len()
            invariant
                i <= futures@.len(),
                futures@.len() == spot@.len(),
                old(self)@.next_seq + futures@.len() + MIN_FOLLOW_MINUTES <= usize::MAX,
                self@.next_seq == old(self)@.next_seq + i,
                forall|j: int|
                    0 <= j < futures@.len() ==> clock::is_instant(#[trigger] futures@[j].ts_bucket),
                self@ == old(self)@.replay(futures@.take(i as int), spot@.take(i as int)),
                self@.well_formed(),
            decreases futures@.len() - i,
        {
            self.append_pair(&futures[i], &spot[i]);
            i += 1;
            proof {
                assert(futures@.take(i as int).drop_last() =~= futures@.take(i - 1));
                assert(spot@.take(i as int).drop_last() =~= spot@.take(i - 1));
            }
        }
        proof {
            assert(futures@.take(i as int) =~= futures@);
            assert(spot@.take(i as int) =~= spot@);
        }
    }

    /// Starts over with two histories.
    pub fn rebuild(&mut self, history_futures: &[FuturesMinute], history_spot: &[SpotMinute])
        requires
            history_futures@.len() + MIN_FOLLOW_MINUTES <= usize::MAX,
            forall|i: int|
                0 <= i < history_futures@.len() ==> clock::is_instant(
                    #[trigger] history_futures@[i].ts_bucket,
                ),
        ensures
            final(self)@ == MachineState::rebuilt(history_futures@, history_spot@),
            final(self)@.well_formed(),
    {
        *self = InitiationEventStateMachine::default();
        let (futures, spot) = aligned_event_histories(history_futures, history_spot);
        self.append_all(futures, spot);
        let n: usize = futures.len();
        self.last_ts = if n == 0 {
            None
        } else {
            Some(futures[n - 1].ts_bucket)
        };
        proof {
            assert(self@ =~= MachineState::rebuilt(history_futures@, history_spot@));
        }
    }

    /// Brings the machine up to two histories, taking in only their new minutes
    /// where it has seen the others.
    pub fn sync(&mut self, history_futures: &[FuturesMinute], history_spot: &[SpotMinute])
        requires
            old(self)@.well_formed(),
            old(self)@.next_seq + history_futures@.len() + MIN_FOLLOW_MINUTES <= usize::MAX,
            forall|i: int|
                0 <= i < history_futures@.len() ==> clock::is_instant(
                    #[trigger] history_futures@[i].ts_bucket,
                ),
        ensures
            final(self)@ == old(self)@.synced(history_futures@, history_spot@),
            final(self)@.well_formed(),
    {
        let (futures, spot) = aligned_event_histories(history_futures, history_spot);
        let n: usize = futures.len();
        if n == 0 {
            *self = InitiationEventStateMachine::default();
            return;
        }
        let first_ts: i64 = futures[0].ts_bucket;
        let last_ts: i64 = futures[n - 1].ts_bucket;
        let seen: i64 = match self.last_ts {
            Some(ts) => {
                if ts >= last_ts {
                    self.rebuild(futures, spot);
                    return;
                }
                ts
            },
            None => {
                self.rebuild(futures, spot);
                return;
            },
        };
        self.prune_before(first_ts);
        let start: usize = lower_bound(futures, seen + MINUTE_US);
        if start == 0 && self.minutes.len() == 0 {
            self.rebuild(futures, spot);
            return;
        }
        self.append_all(
            vstd::slice::slice_subrange(futures, start, n),
            vstd::slice::slice_subrange(spot, start, n),
        );
        self.last_ts = Some(last_ts);
        proof {
            assert(self@ =~= old(self)@.synced(history_futures@, history_spot@));
        }
    }
}

/// The candidates that stay open keep their starts and their order.
proof fn lemma_open_after(state: MachineState, minute: DerivedMinute)
    requires
        state.candidates_open(),
        minute.seq == state.next_seq,
    ensures
        ({
            let open = open_after(state.pending, minute);
            &&& forall|i: int|
                0 <= i < open.len() ==> {
                    &&& state.next_seq - state.minutes.len() <= (#[trigger] open[i]).start_seq
                    &&& open[i].start_seq < state.next_seq
                    &&& state.next_seq < open[i].start_seq + MIN_FOLLOW_MINUTES
                }
            &&& forall|i: int, j: int|
                0 <= i < j < open.len() ==> (#[trigger] open[i]).start_seq < (
                #[trigger] open[j]).start_seq
            &&& open.len() > 0 ==> open.last().start_seq <= state.pending.last().start_seq
        }),
    decreases state.pending.len(),
{
    if state.pending.len() > 0 {
        let rest = MachineState { pending: state.pending.drop_last(), ..state };
        lemma_open_after(rest, minute);
        let open = open_after(rest.pending, minute);
        if rest.pending.len() > 0 {
            assert(rest.pending.last() == state.pending[state.pending.len() - 2]);
        }
        if open.len() > 0 {
            assert(open.last() == open[open.len() - 1]);
            assert(rest.pending.len() > 0);
        }
    }
}

/// Every price of a history has a key.
pub open spec fn prices_have_keys(futures: Seq<FuturesMinute>) -> bool {
    forall|i: int| 0 <= i < futures.len() ==> order::quote_has_keys(#[trigger] futures[i].quote)
}

/// Each minute starts at least a minute after the one before it.
pub open spec fn minute_steps(futures: Seq<FuturesMinute>) -> bool {
    forall|i: int, j: int|
        0 <= i <= j < futures.len() ==> (#[trigger] futures[j]).ts_bucket - (
        #[trigger] futures[i]).ts_bucket >= (j - i) * MINUTE_US
}

/// Whether a candidate starts at index `i`.
spec fn is_start(minutes: Seq<DerivedMinute>, i: int) -> bool {
    i >= 1 && break_direction(minutes[i - 1], minutes[i]) != 0
}

/// The candidate of the break at `i` as it stands before index `n`.
spec fn candidate_at(minutes: Seq<DerivedMinute>, i: int, n: int) -> PendingCandidate {
    let direction = break_direction(minutes[i - 1], minutes[i]);
    PendingCandidate {
        direction,
        start_seq: i as usize,
        pivot_price: if direction > 0 {
            minutes[i].vah.at
        } else {
            minutes[i].val.at
        },
        z_delta: minutes[i].zdelta,
        min_close_post_break: order::lowest(closes(minutes, i + 1, n)),
        max_close_post_break: order::highest(closes(minutes, i + 1, n)),
        price_low: order::lowest(lows(minutes, i, n)),
        price_high: order::highest(highs(minutes, i, n)),
    }
}

/// The candidates of the breaks in `lo..hi` as they stand before index `n`.
spec fn open_breaks(minutes: Seq<DerivedMinute>, lo: int, hi: int, n: int) -> Seq<PendingCandidate>
    decreases hi - lo,
{
    if hi <= lo {
        Seq::empty()
    } else if is_start(minutes, hi - 1) {
        open_breaks(minutes, lo, hi - 1, n).push(candidate_at(minutes, hi - 1, n))
    } else {
        open_breaks(minutes, lo, hi - 1, n)
    }
}

/// The index from which breaks are still open before index `n`.
spec fn open_from(n: int) -> int {
    if n < MIN_FOLLOW_MINUTES {
        0
    } else {
        n - MIN_FOLLOW_MINUTES
    }
}

/// What a run of the machine from the start knows after a whole history.
spec fn knows_all(state: MachineState, futures: Seq<FuturesMinute>, spot: Seq<SpotMinute>) -> bool {
    let n = futures.len() as int;
    let minutes = derived_minutes(futures, spot);
    &&& state.minutes == minutes
    &&& state.next_seq == n
    &&& state.last_ts is None
    &&& state.area == latest_area(futures)
    &&& state.pending == open_breaks(minutes, open_from(n), n, n)
    &&& state.events.len() == events_before(minutes, n).len()
    &&& forall|j: int|
        0 <= j < state.events.len() ==> (#[trigger] state.events[j]).event == events_before(
            minutes,
            n,
        )[j]
    &&& forall|j: int|
        0 <= j < state.events.len() ==> is_lookback_start(
            minutes,
            (#[trigger] state.events[j]).required_start_ts,
        )
}

/// Whether an instant is a lookback before a minute that closes a full lookback.
spec fn is_lookback_start(minutes: Seq<DerivedMinute>, ts: i64) -> bool {
    exists|i: int|
        ZDELTA_LOOKBACK - 1 <= i < minutes.len() && ts == #[trigger] minutes[i].ts_bucket - (
        ZDELTA_LOOKBACK - 1) * MINUTE_US
}

proof fn lemma_event_at_prefix(minutes: Seq<DerivedMinute>, minute: DerivedMinute, i: int)
    requires
        0 <= i,
        i + MIN_FOLLOW_MINUTES < minutes.len(),
    ensures
        event_at(minutes.push(minute), i) == event_at(minutes, i),
{
    let more = minutes.push(minute);
    let end = i + MIN_FOLLOW_MINUTES + 1;
    assert(closes(more, i + 1, end) =~= closes(minutes, i + 1, end));
    assert(lows(more, i, end) =~= lows(minutes, i, end));
    assert(highs(more, i, end) =~= highs(minutes, i, end));
}

proof fn lemma_events_before_prefix(minutes: Seq<DerivedMinute>, minute: DerivedMinute, hi: int)
    requires
        hi + MIN_FOLLOW_MINUTES <= minutes.len(),
    ensures
        events_before(minutes.push(minute), hi) == events_before(minutes, hi),
    decreases hi,
{
    if hi > 0 {
        lemma_events_before_prefix(minutes, minute, hi - 1);
        lemma_event_at_prefix(minutes, minute, hi - 1);
    }
}

/// One more minute advances every candidate that it does not complete.
proof fn lemma_advance(minutes: Seq<DerivedMinute>, minute: DerivedMinute, i: int)
    requires
        1 <= i < minutes.len(),
    ensures
        ({
            let n = minutes.len() as int;
            &&& advanced(candidate_at(minutes, i, n), minute) == candidate_at(
                minutes.push(minute),
                i,
                n + 1,
            )
        }),
{
    let n = minutes.len() as int;
    let more = minutes.push(minute);
    assert(closes(more, i + 1, n + 1).drop_last() =~= closes(minutes, i + 1, n));
    assert(lows(more, i, n + 1).drop_last() =~= lows(minutes, i, n));
    assert(highs(more, i, n + 1).drop_last() =~= highs(minutes, i, n));
}

proof fn lemma_open_breaks_step(
    minutes: Seq<DerivedMinute>,
    minute: DerivedMinute,
    lo: int,
    hi: int,
)
    requires
        minutes.len() <= usize::MAX,
        minute.seq == minutes.len(),
        lo == open_from(minutes.len() as int),
        lo <= hi <= minutes.len(),
    ensures
        ({
            let n = minutes.len() as int;
            &&& open_after(open_breaks(minutes, lo, hi, n), minute) == open_breaks(
                minutes.push(minute),
                open_from(n + 1),
                hi,
                n + 1,
            )
        }),
    decreases hi - lo,
{
    let n = minutes.len() as int;
    let more = minutes.push(minute);
    if lo < hi {
        lemma_open_breaks_step(minutes, minute, lo, hi - 1);
        let i = hi - 1;
        if is_start(minutes, i) {
            lemma_advance(minutes, minute, i);
            let all = open_breaks(minutes, lo, hi, n);
            assert(all.drop_last() =~= open_breaks(minutes, lo, i, n));
            assert(all.last() == candidate_at(minutes, i, n));
        }
    }
}

/// The newest minute settles the break a follow-through before it and no other.
proof fn lemma_settled(minutes: Seq<DerivedMinute>, minute: DerivedMinute, lo: int, hi: int)
    requires
        minutes.len() < usize::MAX,
        minute.seq == minutes.len(),
        forall|i: int| 0 <= i < minutes.len() ==> #[trigger] minutes[i].seq == i,
        forall|i: int|
            0 <= i < minutes.len() && i + 1 < ZDELTA_LOOKBACK ==> #[trigger] minutes[i].zdelta == 0,
        forall|i: int| 0 <= i < minutes.len() ==> clock::is_instant(#[trigger] minutes[i].ts_bucket),
        lo == open_from(minutes.len() as int),
        lo <= hi <= minutes.len(),
    ensures
        ({
            let n = minutes.len() as int;
            let more = minutes.push(minute);
            let due = n - MIN_FOLLOW_MINUTES;
            let new = settled_by(more, open_breaks(minutes, lo, hi, n), minute);
            if due >= 0 && due < hi {
                match event_at(more, due) {
                    Some(event) => {
                        &&& new.len() == 1
                        &&& new[0].event == event
                        &&& due >= ZDELTA_LOOKBACK - 1
                        &&& new[0].required_start_ts == minutes[due].ts_bucket - (ZDELTA_LOOKBACK
                            - 1) * MINUTE_US
                    },
                    None => new.len() == 0,
                }
            } else {
                new.len() == 0
            }
        }),
    decreases hi - lo,
{
    let n = minutes.len() as int;
    let more = minutes.push(minute);
    let due = n - MIN_FOLLOW_MINUTES;
    if lo < hi {
        lemma_settled(minutes, minute, lo, hi - 1);
        let i = hi - 1;
        if is_start(minutes, i) {
            lemma_advance(minutes, minute, i);
            let all = open_breaks(minutes, lo, hi, n);
            assert(all.drop_last() =~= open_breaks(minutes, lo, i, n));
            assert(all.last() == candidate_at(minutes, i, n));
            if i == due {
                assert(minute_of(more, i) == Some(minutes[i]));
                assert(minute_of(more, n) == Some(minute));
                assert(minutes[i].zdelta != 0);
                assert(i + 1 >= ZDELTA_LOOKBACK);
                assert(minutes[i].ts_bucket == more[i].ts_bucket);
            }
        }
    }
}

/// What one more minute adds to the events.
proof fn lemma_events_step(minutes: Seq<DerivedMinute>, minute: DerivedMinute)
    ensures
        ({
            let n = minutes.len() as int;
            let more = minutes.push(minute);
            let due = n - MIN_FOLLOW_MINUTES;
            events_before(more, n + 1) == if due >= 0 && event_at(more, due) is Some {
                events_before(minutes, n).push(event_at(more, due)->0)
            } else {
                events_before(minutes, n)
            }
        }),
{
    let n = minutes.len() as int;
    let more = minutes.push(minute);
    let due = n - MIN_FOLLOW_MINUTES;
    if due < 0 {
        lemma_no_late_events(more, 0, n + 1);
        lemma_no_late_events(minutes, 0, n);
    } else {
        lemma_no_late_events(more, due + 1, n + 1);
        lemma_no_late_events(minutes, due, n);
        lemma_events_before_prefix(minutes, minute, due);
    }
}

/// The derived minutes of a history that is one minute longer.
proof fn lemma_derived_step(futures: Seq<FuturesMinute>, spot: Seq<SpotMinute>)
    requires
        futures.len() == spot.len(),
        futures.len() > 0,
    ensures
        ({
            let n = futures.len() - 1;
            derived_minutes(futures, spot) == derived_minutes(
                futures.drop_last(),
                spot.drop_last(),
            ).push(
                derive_minute(
                    futures.last(),
                    spot.last(),
                    n,
                    area_after(latest_area(futures.drop_last()), futures.last()),
                    n + 1 >= ZDELTA_LOOKBACK,
                ),
            )
        }),
{
    let n = futures.len() - 1;
    let f = futures.drop_last();
    let s = spot.drop_last();
    assert(futures.take(n + 1) =~= futures);
    assert forall|i: int| 0 <= i < n implies #[trigger] derived_minutes(f, s)[i]
        == derived_minutes(futures, spot)[i] by {
        assert(f.take(i + 1) =~= futures.take(i + 1));
    }
    assert(derived_minutes(futures, spot) =~= derived_minutes(f, s).push(
        derived_minutes(futures, spot)[n],
    ));
}

/// What the derived minutes of a history have in common.
spec fn plain(minutes: Seq<DerivedMinute>) -> bool {
    &&& forall|i: int| 0 <= i < minutes.len() ==> #[trigger] minutes[i].seq == i
    &&& forall|i: int|
        0 <= i < minutes.len() && i + 1 < ZDELTA_LOOKBACK ==> #[trigger] minutes[i].zdelta == 0
    &&& forall|i: int| 0 <= i < minutes.len() ==> clock::is_instant(#[trigger] minutes[i].ts_bucket)
    &&& forall|i: int| 0 <= i < minutes.len() ==> order::is_key(#[trigger] minutes[i].low.at)
    &&& forall|i: int| 0 <= i < minutes.len() ==> order::is_key(#[trigger] minutes[i].high.at)
}

proof fn lemma_plain(futures: Seq<FuturesMinute>, spot: Seq<SpotMinute>)
    requires
        futures.len() == spot.len(),
        futures.len() < usize::MAX,
        prices_have_keys(futures),
        forall|i: int| 0 <= i < futures.len() ==> clock::is_instant(#[trigger] futures[i].ts_bucket),
    ensures
        plain(derived_minutes(futures, spot)),
{
    let minutes = derived_minutes(futures, spot);
    assert forall|i: int| 0 <= i < minutes.len() implies order::is_key(#[trigger] minutes[i].low.at)
        && order::is_key(minutes[i].high.at) by {
        assert(order::quote_has_keys(futures[i].quote));
    }
}

/// Taking in one more minute keeps the machine's knowledge complete.
#[verifier::rlimit(50)]
#[verifier::spinoff_prover]
proof fn lemma_knows_step(
    before: MachineState,
    futures: Seq<FuturesMinute>,
    spot: Seq<SpotMinute>,
)
    requires
        futures.len() == spot.len(),
        0 < futures.len() < usize::MAX,
        plain(derived_minutes(futures, spot)),
        knows_all(before, futures.drop_last(), spot.drop_last()),
    ensures
        knows_all(before.append(futures.last(), spot.last()), futures, spot),
{
    let minutes = derived_minutes(futures, spot);
    let n = futures.len() - 1;
    let after = before.append(futures.last(), spot.last());
    let old_minutes = before.minutes;
    let minute = minutes[n];
    lemma_derived_step(futures, spot);
    assert(minutes == old_minutes.push(minute));
    assert forall|i: int| 0 <= i < n implies #[trigger] old_minutes[i] == minutes[i] by {}
    assert(plain(old_minutes)) by {
        assert forall|i: int| 0 <= i < n implies #[trigger] old_minutes[i] == minutes[i] by {}
    }
    lemma_open_breaks_step(old_minutes, minute, open_from(n), n);
    lemma_settled(old_minutes, minute, open_from(n), n);
    lemma_start(minutes, n);
    lemma_events_step(old_minutes, minute);
    let new = settled_by(minutes, before.pending, minute);
    let due = n - MIN_FOLLOW_MINUTES;
    assert(after.pending == open_breaks(minutes, open_from(n + 1), n + 1, n + 1)) by {
        if n > 0 {
            assert(before.minutes.last() == minutes[n - 1]);
        }
    }
    assert(after.events == before.events + new);
    assert(after.area == latest_area(futures));
    assert(after.events.len() == events_before(minutes, n + 1).len());
    assert forall|j: int| 0 <= j < after.events.len() implies (#[trigger] after.events[j]).event
        == events_before(minutes, n + 1)[j] by {
        if j < before.events.len() {
            assert(after.events[j] == before.events[j]);
        } else {
            assert(after.events[j] == new[0]);
        }
    }
    assert forall|j: int| 0 <= j < after.events.len() implies is_lookback_start(
        minutes,
        (#[trigger] after.events[j]).required_start_ts,
    ) by {
        if j < before.events.len() {
            assert(after.events[j] == before.events[j]);
            let ts = before.events[j].required_start_ts;
            assert(is_lookback_start(old_minutes, ts));
            let i = choose|i: int|
                ZDELTA_LOOKBACK - 1 <= i < old_minutes.len() && ts
                    == #[trigger] old_minutes[i].ts_bucket - (ZDELTA_LOOKBACK - 1) * MINUTE_US;
            assert(minutes[i] == old_minutes[i]);
        } else {
            assert(after.events[j] == new[0]);
            assert(minutes[due] == old_minutes[due]);
        }
    }
}

proof fn lemma_knows_all(futures: Seq<FuturesMinute>, spot: Seq<SpotMinute>)
    requires
        futures.len() == spot.len(),
        futures.len() < usize::MAX,
        prices_have_keys(futures),
        forall|i: int| 0 <= i < futures.len() ==> clock::is_instant(#[trigger] futures[i].ts_bucket),
    ensures
        knows_all(fresh().replay(futures, spot), futures, spot),
    decreases futures.len(),
{
    if futures.len() == 0 {
        assert(derived_minutes(futures, spot) =~= Seq::empty());
    } else {
        let f = futures.drop_last();
        let s = spot.drop_last();
        assert forall|i: int| 0 <= i < f.len() implies order::quote_has_keys(
            #[trigger] f[i].quote,
        ) by {
            assert(f[i] == futures[i]);
        }
        assert forall|i: int| 0 <= i < f.len() implies clock::is_instant(
            #[trigger] f[i].ts_bucket,
        ) by {
            assert(f[i] == futures[i]);
        }
        lemma_knows_all(f, s);
        lemma_plain(futures, spot);
        lemma_knows_step(fresh().replay(f, s), futures, spot);
    }
}

/// A candidate that starts at the newest minute.
proof fn lemma_start(minutes: Seq<DerivedMinute>, n: int)
    requires
        minutes.len() == n + 1,
        0 <= n,
        minutes[n].seq == n,
        order::is_key(minutes[n].low.at),
        order::is_key(minutes[n].high.at),
        n + 1 < ZDELTA_LOOKBACK ==> minutes[n].zdelta == 0,
    ensures
        is_start(minutes, n) ==> n + 1 >= ZDELTA_LOOKBACK,
        is_start(minutes, n) ==> candidate_at(minutes, n, n + 1) == started(
            break_direction(minutes[n - 1], minutes[n]),
            minutes[n],
        ),
        open_breaks(minutes, open_from(n + 1), n + 1, n + 1) == if is_start(minutes, n) {
            open_breaks(minutes, open_from(n + 1), n, n + 1).push(candidate_at(minutes, n, n + 1))
        } else {
            open_breaks(minutes, open_from(n + 1), n, n + 1)
        },
{
    assert(closes(minutes, n + 1, n + 1) =~= Seq::empty());
    assert(lows(minutes, n, n + 1).drop_last() =~= Seq::empty());
    assert(highs(minutes, n, n + 1).drop_last() =~= Seq::empty());
    assert(lows(minutes, n, n + 1).last() == minutes[n].low.at);
    assert(highs(minutes, n, n + 1).last() == minutes[n].high.at);
}

/// Running the machine over two histories finds the events of their derived
/// minutes, in order, each once.
pub proof fn law_rebuild_finds_every_event(futures: Seq<FuturesMinute>, spot: Seq<SpotMinute>)
    requires
        futures.len() < usize::MAX,
        prices_have_keys(futures),
        forall|i: int| 0 <= i < futures.len() ==> clock::is_instant(#[trigger] futures[i].ts_bucket),
    ensures
        ({
            let n = history::shorter(futures.len(), spot.len());
            MachineState::rebuilt(futures, spot).events.map_values(
                |entry: CachedEvent| entry.event,
            ) == events_before(derived_minutes(history::tail(futures, n), history::tail(spot, n)), n)
        }),
{
    let n = history::shorter(futures.len(), spot.len());
    let f = history::tail(futures, n);
    let s = history::tail(spot, n);
    assert forall|i: int| 0 <= i < f.len() implies order::quote_has_keys(#[trigger] f[i].quote) by {
        assert(f[i] == futures[futures.len() - n + i]);
    }
    assert forall|i: int| 0 <= i < f.len() implies clock::is_instant(#[trigger] f[i].ts_bucket) by {
        assert(f[i] == futures[futures.len() - n + i]);
    }
    lemma_knows_all(f, s);
    assert(MachineState::rebuilt(futures, spot).events.map_values(
        |entry: CachedEvent| entry.event,
    ) =~= events_before(derived_minutes(f, s), n));
}

/// The machine finds nothing in two histories that share too few minutes for any
/// delta to be standardised and followed through.
pub proof fn law_short_histories_give_nothing(futures: Seq<FuturesMinute>, spot: Seq<SpotMinute>)
    requires
        history::shorter(futures.len(), spot.len()) < ZDELTA_LOOKBACK + MIN_FOLLOW_MINUTES,
        prices_have_keys(futures),
        forall|i: int| 0 <= i < futures.len() ==> clock::is_instant(#[trigger] futures[i].ts_bucket),
        futures.len() < usize::MAX,
    ensures
        MachineState::rebuilt(futures, spot).events.len() == 0,
{
    law_rebuild_finds_every_event(futures, spot);
    let n = history::shorter(futures.len(), spot.len());
    lemma_too_short(derived_minutes(history::tail(futures, n), history::tail(spot, n)), n);
    assert(MachineState::rebuilt(futures, spot).events.map_values(
        |entry: CachedEvent| entry.event,
    ).len() == 0);
}

/// Running the machine over two histories finds what one pass over them finds. In
/// histories too short for the single pass there must be nothing to find.
pub proof fn law_rebuild_matches_direct(futures: Seq<FuturesMinute>, spot: Seq<SpotMinute>)
    requires
        futures.len() < usize::MAX,
        prices_have_keys(futures),
        forall|i: int| 0 <= i < futures.len() ==> clock::is_instant(#[trigger] futures[i].ts_bucket),
        ({
            let n = history::shorter(futures.len(), spot.len());
            n < MIN_HISTORY_MINUTES ==> events_before(
                derived_minutes(history::tail(futures, n), history::tail(spot, n)),
                n,
            ).len() == 0
        }),
    ensures
        MachineState::rebuilt(futures, spot).events.map_values(|entry: CachedEvent| entry.event)
            == all_events(futures, spot),
{
    law_rebuild_finds_every_event(futures, spot);
}

proof fn lemma_too_short(minutes: Seq<DerivedMinute>, hi: int)
    requires
        minutes.len() < ZDELTA_LOOKBACK + MIN_FOLLOW_MINUTES,
        forall|i: int|
            0 <= i < minutes.len() && i + 1 < ZDELTA_LOOKBACK ==> #[trigger] minutes[i].zdelta == 0,
    ensures
        events_before(minutes, hi) == Seq::<InitiationEventData>::empty(),
    decreases hi,
{
    if hi > 0 {
        lemma_too_short(minutes, hi - 1);
        let i = hi - 1;
        if 1 <= i && i + MIN_FOLLOW_MINUTES < minutes.len() {
            assert(minutes[i].zdelta == 0);
        }
    }
}

/// Taking in two runs one after the other is taking in the whole run.
#[verifier::rlimit(50)]
#[verifier::spinoff_prover]
proof fn lemma_replay_split(
    state: MachineState,
    futures: Seq<FuturesMinute>,
    spot: Seq<SpotMinute>,
    k: int,
)
    requires
        futures.len() == spot.len(),
        0 <= k <= futures.len(),
    ensures
        ({
            let n = futures.len() as int;
            state.replay(futures, spot) == state.replay(futures.take(k), spot.take(k)).replay(
                futures.subrange(k, n),
                spot.subrange(k, n),
            )
        }),
    decreases futures.len(),
{
    let n = futures.len() as int;
    if k == n {
        assert(futures.take(k) =~= futures);
        assert(spot.take(k) =~= spot);
    } else {
        lemma_replay_split(state, futures.drop_last(), spot.drop_last(), k);
        assert(futures.drop_last().take(k) =~= futures.take(k));
        assert(spot.drop_last().take(k) =~= spot.take(k));
        assert(futures.drop_last().subrange(k, n - 1) =~= futures.subrange(k, n).drop_last());
        assert(spot.drop_last().subrange(k, n - 1) =~= spot.subrange(k, n).drop_last());
    }
}

/// Which minute the machine takes for its newest does not matter to what it takes in.
proof fn lemma_replay_ending(
    state: MachineState,
    last_ts: Option<i64>,
    futures: Seq<FuturesMinute>,
    spot: Seq<SpotMinute>,
)
    requires
        futures.len() == spot.len(),
    ensures
        state.ending_at(last_ts).replay(futures, spot) == state.replay(futures, spot).ending_at(
            last_ts,
        ),
    decreases futures.len(),
{
    if futures.len() > 0 {
        lemma_replay_ending(state, last_ts, futures.drop_last(), spot.drop_last());
    }
}

/// Bringing a machine that has seen the beginning of two histories up to the whole
/// of them leaves it as a run over the whole does.
pub proof fn law_sync_continues(futures: Seq<FuturesMinute>, spot: Seq<SpotMinute>, k: int)
    requires
        futures.len() == spot.len(),
        0 <= k < futures.len() < usize::MAX,
        prices_have_keys(futures),
        minute_steps(futures),
        forall|i: int| 0 <= i < futures.len() ==> clock::is_instant(#[trigger] futures[i].ts_bucket),
    ensures
        MachineState::rebuilt(futures.take(k), spot.take(k)).synced(futures, spot)
            == MachineState::rebuilt(futures, spot),
{
    let n = futures.len() as int;
    let f = futures.take(k);
    let s = spot.take(k);
    assert(history::tail(futures, n) =~= futures);
    assert(history::tail(spot, n) =~= spot);
    assert(history::tail(f, k) =~= f);
    assert(history::tail(s, k) =~= s);
    let before = MachineState::rebuilt(f, s);
    if k > 0 {
        let seen = futures[k - 1].ts_bucket;
        assert(before.last_ts == Some(seen));
        assert(futures[n - 1].ts_bucket - futures[k - 1].ts_bucket >= (n - k) * MINUTE_US);
        assert(prices_have_keys(f)) by {
            assert forall|i: int| 0 <= i < f.len() implies order::quote_has_keys(
                #[trigger] f[i].quote,
            ) by {
                assert(f[i] == futures[i]);
            }
        }
        assert forall|i: int| 0 <= i < f.len() implies clock::is_instant(
            #[trigger] f[i].ts_bucket,
        ) by {
            assert(f[i] == futures[i]);
        }
        lemma_knows_all(f, s);
        lemma_plain(f, s);
        let first_ts = futures[0].ts_bucket;
        lemma_nothing_pruned(before, f, s);
        assert(before.pruned(first_ts) =~= before);
        let ts = history::stamps(futures);
        assert forall|i: int, j: int| 0 <= i <= j < ts.len() implies ts[i] <= ts[j] by {
            assert(futures[j].ts_bucket - futures[i].ts_bucket >= (j - i) * MINUTE_US);
        }
        assert forall|i: int| 0 <= i < k implies #[trigger] ts[i] < seen + MINUTE_US by {
            assert(futures[k - 1].ts_bucket - futures[i].ts_bucket >= (k - 1 - i) * MINUTE_US);
        }
        assert forall|i: int| k <= i < n implies #[trigger] ts[i] >= seen + MINUTE_US by {
            assert(futures[i].ts_bucket - futures[k - 1].ts_bucket >= (i - (k - 1)) * MINUTE_US);
        }
        history::lemma_first_at_or_after_is(ts, (seen + MINUTE_US) as i64, k);
        lemma_replay_split(fresh(), futures, spot, k);
        lemma_replay_ending(
            fresh().replay(f, s),
            Some(seen),
            futures.subrange(k, n),
            spot.subrange(k, n),
        );
    }
}

/// Nothing that a machine knows of a history reaches back before it.
proof fn lemma_nothing_pruned(
    state: MachineState,
    futures: Seq<FuturesMinute>,
    spot: Seq<SpotMinute>,
)
    requires
        futures.len() == spot.len(),
        0 < futures.len() < usize::MAX,
        minute_steps(futures),
        plain(derived_minutes(futures, spot)),
        knows_all(state.ending_at(None), futures, spot),
    ensures
        state.pruned(futures[0].ts_bucket) == state,
{
    let first_ts = futures[0].ts_bucket;
    let minutes = derived_minutes(futures, spot);
    assert(state.ending_at(None).minutes == state.minutes);
    assert(state.ending_at(None).events == state.events);
    if state.events.len() > 0 {
        let ts = state.events[0].required_start_ts;
        assert(is_lookback_start(minutes, state.ending_at(None).events[0].required_start_ts));
        let i = choose|i: int|
            ZDELTA_LOOKBACK - 1 <= i < minutes.len() && ts == #[trigger] minutes[i].ts_bucket - (
            ZDELTA_LOOKBACK - 1) * MINUTE_US;
        assert(futures[i].ts_bucket - futures[0].ts_bucket >= (i - 0) * MINUTE_US);
        assert(!needs_before(first_ts)(state.events[0]));
    }
    if state.pending.len() > 0 {
        let n = futures.len() as int;
        lemma_open_breaks_starts(minutes, open_from(n), n, n);
        let i = state.pending[0].start_seq as int;
        assert(minute_of(minutes, i) == Some(minutes[i]));
        assert(futures[i].ts_bucket - futures[0].ts_bucket >= (i - 0) * MINUTE_US);
        assert(!start_is_gone(minutes, first_ts)(state.pending[0]));
    }
}

proof fn lemma_open_breaks_starts(minutes: Seq<DerivedMinute>, lo: int, hi: int, n: int)
    requires
        0 <= lo,
        hi <= minutes.len() <= usize::MAX,
    ensures
        forall|j: int|
            0 <= j < open_breaks(minutes, lo, hi, n).len() ==> lo <= (#[trigger] open_breaks(
                minutes,
                lo,
                hi,
                n,
            )[j]).start_seq < hi,
    decreases hi - lo,
{
    if lo < hi {
        lemma_open_breaks_starts(minutes, lo, hi - 1, n);
        let rest = open_breaks(minutes, lo, hi - 1, n);
        let all = open_breaks(minutes, lo, hi, n);
        assert forall|j: int| 0 <= j < all.len() implies lo <= (#[trigger] all[j]).start_seq < hi by {
            if j < rest.len() {
                assert(all[j] == rest[j]);
            }
        }
    }
}

impl Confirmed for InitiationEventData {
    open spec fn known_at(&self) -> i64 {
        self.confirm_ts
    }

    fn known_ts(&self) -> (out: i64) {
        self.confirm_ts
    }
}

/// The events that become known at the end of the minute that starts at `ts_bucket`.
pub fn detect_initiation_events(all_events: &[InitiationEventData], ts_bucket: i64) -> (out: Vec<
    InitiationEventData,
>)
    requires
        clock::is_instant(ts_bucket),
    ensures
        out@ == events::known_with(all_events@, ts_bucket),
{
    current_events(all_events, ts_bucket)
}

/// The initiation indicator.
pub struct I07Initiation;

impl I07Initiation {
    /// The code of the indicator.
    pub fn code(&self) -> (out: &'static str)
        ensures
            out@ == "initiation"@,
    {
        "initiation"
    }

    /// The report of the minute that starts at `ts_bucket`, given all events and the
    /// lengths of the histories they were found in.
    pub fn evaluate(
        &self,
        ts_bucket: i64,
        all_events: &[InitiationEventData],
        futures_minutes: usize,
        spot_minutes: usize,
    ) -> (out: EventReport<InitiationEventData>)
        requires
            clock::is_instant(ts_bucket),
        ensures
            out.listed@ == all_events@,
            out.rows@ == events::known_with(all_events@, ts_bucket),
            out.covered_minutes == events::covered(futures_minutes, spot_minutes),
    {
        report_current(all_events, ts_bucket, futures_minutes, spot_minutes)
    }
}

/// A fresh machine after it has been brought up to longer and longer beginnings of two
/// histories, of the given lengths.
pub open spec fn brought_up(
    futures: Seq<FuturesMinute>,
    spot: Seq<SpotMinute>,
    lengths: Seq<int>,
) -> MachineState
    decreases lengths.len(),
{
    if lengths.len() == 0 {
        fresh()
    } else {
        brought_up(futures, spot, lengths.drop_last()).synced(
            futures.take(lengths.last()),
            spot.take(lengths.last()),
        )
    }
}

/// A machine that is brought up to longer and longer beginnings of two histories, minute by
/// minute or in larger steps, always stands where a run over what it has seen would.
pub proof fn law_synced_step_by_step(
    futures: Seq<FuturesMinute>,
    spot: Seq<SpotMinute>,
    lengths: Seq<int>,
)
    requires
        futures.len() == spot.len(),
        futures.len() < usize::MAX,
        prices_have_keys(futures),
        minute_steps(futures),
        forall|i: int| 0 <= i < futures.len() ==> clock::is_instant(#[trigger] futures[i].ts_bucket),
        lengths.len() > 0,
        forall|i: int| 0 <= i < lengths.len() ==> 0 < #[trigger] lengths[i] <= futures.len(),
        forall|i: int, j: int| 0 <= i < j < lengths.len() ==> lengths[i] < lengths[j],
    ensures
        brought_up(futures, spot, lengths) == MachineState::rebuilt(
            futures.take(lengths.last()),
            spot.take(lengths.last()),
        ),
    decreases lengths.len(),
{
    let n = lengths.last();
    let f = futures.take(n);
    let s = spot.take(n);
    let rest = lengths.drop_last();
    assert(minute_steps(f)) by {
        assert forall|i: int, j: int| 0 <= i <= j < f.len() implies (#[trigger] f[j]).ts_bucket - (
        #[trigger] f[i]).ts_bucket >= (j - i) * MINUTE_US by {
            assert(f[i] == futures[i] && f[j] == futures[j]);
        }
    }
    assert forall|i: int| 0 <= i < f.len() implies clock::is_instant(#[trigger] f[i].ts_bucket) by {
        assert(f[i] == futures[i]);
    }
    assert(prices_have_keys(f)) by {
            assert forall|i: int| 0 <= i < f.len() implies #[trigger] f[i] == futures[i] by {}
        }
    if rest.len() == 0 {
        assert(brought_up(futures, spot, rest) == fresh());
        assert(history::tail(f, n) =~= f);
        assert(history::tail(s, n) =~= s);
    } else {
        let k = rest.last();
        assert(k == lengths[lengths.len() - 2]);
        law_synced_step_by_step(futures, spot, rest);
        assert(f.take(k) =~= futures.take(k));
        assert(s.take(k) =~= spot.take(k));
        law_sync_continues(f, s, k);
    }
}

/// Whether a minute breaks out of the value area in force, upwards or downwards: it closes
/// more than two ticks beyond the border where the minute before did not, on standardised
/// delta of 1.5 and relative delta of 0.2 or more in that direction, with imbalances stacked
/// in it and a close in the outer part of the range.
pub open spec fn breaks_out(minutes: Seq<DerivedMinute>, i: int, up: bool) -> bool {
    let prev = minutes[i - 1];
    let cur = minutes[i];
    if up {
        &&& cur.vah.up_two < cur.close.at
        &&& prev.close.at <= prev.vah.up_two
        &&& ZDELTA_MIN <= cur.zdelta
        &&& RDELTA_MIN <= cur.rdelta
        &&& cur.stacked_buy
        &&& CLV_MIN <= cur.clv_bull
    } else {
        &&& cur.close.at < cur.val.down_two
        &&& prev.val.down_two <= prev.close.at
        &&& cur.zdelta <= -ZDELTA_MIN
        &&& cur.rdelta <= -RDELTA_MIN
        &&& cur.stacked_sell
        &&& CLV_MIN <= cur.clv_bear
    }
}

/// Whether a break is followed through: the closes of the five minutes after it stay within a
/// tick of the border that was broken, which is a number, and the deltas from the break to the
/// fifth of them sum up to a flow in its direction.
pub open spec fn is_followed(minutes: Seq<DerivedMinute>, i: int, up: bool) -> bool {
    if up {
        &&& minutes[i].vah.down_one <= KEY_INFINITY
        &&& forall|d: int|
            1 <= d <= 5 ==> minutes[i].vah.down_one <= (#[trigger] minutes[i + d]).close.at
        &&& 0 < minutes[i + 5].follow_delta
    } else {
        &&& -KEY_INFINITY <= minutes[i].val.up_one
        &&& forall|d: int|
            1 <= d <= 5 ==> (#[trigger] minutes[i + d]).close.at <= minutes[i].val.up_one
        &&& minutes[i + 5].follow_delta < 0
    }
}

/// Whether a minute initiates a move in one direction: it breaks out that way, not the other
/// way as well, and is followed through within the history.
pub open spec fn initiates(minutes: Seq<DerivedMinute>, i: int, up: bool) -> bool {
    &&& 1 <= i < minutes.len() - 5
    &&& breaks_out(minutes, i, up)
    &&& !breaks_out(minutes, i, !up)
    &&& is_followed(minutes, i, up)
}

/// Whether an event tells of the move that a minute initiates.
pub open spec fn tells_of(
    e: InitiationEventData,
    minutes: Seq<DerivedMinute>,
    i: int,
    up: bool,
) -> bool {
    let end = minutes[i + 5].ts_bucket + 60_000_000;
    &&& e.direction == if up {
        1int
    } else {
        -1
    }
    &&& e.start_ts == minutes[i].ts_bucket
    &&& e.end_ts == end && e.confirm_ts == end && e.follow_through_end_ts == end
    &&& up ==> e.pivot_price == minutes[i].vah.at
    &&& !up ==> e.pivot_price == minutes[i].val.at
    &&& e.break_close == minutes[i].close.at
    &&& e.z_delta == minutes[i].zdelta
    &&& e.min_follow_required_minutes == 5 && e.follow_through_minutes == 5
    &&& e.follow_through_delta_sum == minutes[i + 5].follow_delta
    &&& e.follow_through_hold_ok
    &&& forall|d: int|
        0 <= d <= 5 ==> e.price_low <= (#[trigger] minutes[i + d]).low.at && minutes[i + d].high.at
            <= e.price_high
    &&& e.price_low == KEY_INFINITY || exists|d: int|
        0 <= d <= 5 && (#[trigger] minutes[i + d]).low.at == e.price_low
    &&& e.price_high == -KEY_INFINITY || exists|d: int|
        0 <= d <= 5 && (#[trigger] minutes[i + d]).high.at == e.price_high
}

/// The flow that follows an event goes its way: where the direction is 1 it sums up to more
/// than zero, where it is -1 to less, and it is always one of the two.
pub proof fn law_flow_follows_the_break(e: InitiationEventData, minutes: Seq<DerivedMinute>, i: int)
    requires
        event_at(minutes, i) == Some(e),
    ensures
        e.direction == 1 <==> e.follow_through_delta_sum > 0,
        e.direction == -1 <==> e.follow_through_delta_sum < 0,
        e.direction == 1 || e.direction == -1,
{
}

proof fn lemma_event_at(minutes: Seq<DerivedMinute>, i: int)
    requires
        forall|j: int|
            0 <= j < minutes.len() ==> clock::is_instant((#[trigger] minutes[j]).ts_bucket),
    ensures
        event_at(minutes, i) matches Some(e) ==> {
            &&& e.direction == 1 ==> initiates(minutes, i, true) && tells_of(e, minutes, i, true)
            &&& e.direction != 1 ==> initiates(minutes, i, false) && tells_of(
                e,
                minutes,
                i,
                false,
            )
        },
        initiates(minutes, i, true) || initiates(minutes, i, false) ==> event_at(minutes, i) is Some,
        initiates(minutes, i, true) ==> event_at(minutes, i)->0.direction == 1,
        initiates(minutes, i, false) ==> event_at(minutes, i)->0.direction == -1,
{
    if 1 <= i < minutes.len() - 5 {
        let after = closes(minutes, i + 1, i + 6);
        let start = minutes[i];
        order::law_lowest(after, start.vah.down_one);
        order::law_highest(after, start.val.up_one);
        assert forall|d: int| 1 <= d <= 5 implies #[trigger] minutes[i + d].close.at == after[d
            - 1] by {}
        assert((forall|j: int| 0 <= j < after.len() ==> #[trigger] after[j] >= start.vah.down_one)
            <==> (forall|d: int|
            1 <= d <= 5 ==> start.vah.down_one <= (#[trigger] minutes[i + d]).close.at)) by {
            if forall|d: int|
                1 <= d <= 5 ==> start.vah.down_one <= (#[trigger] minutes[i + d]).close.at {
                assert forall|j: int| 0 <= j < after.len() implies #[trigger] after[j]
                    >= start.vah.down_one by {
                    assert(minutes[i + (j + 1)].close.at >= start.vah.down_one);
                }
            }
        }
        assert((forall|j: int| 0 <= j < after.len() ==> #[trigger] after[j] <= start.val.up_one)
            <==> (forall|d: int|
            1 <= d <= 5 ==> (#[trigger] minutes[i + d]).close.at <= start.val.up_one)) by {
            if forall|d: int|
                1 <= d <= 5 ==> (#[trigger] minutes[i + d]).close.at <= start.val.up_one {
                assert forall|j: int| 0 <= j < after.len() implies #[trigger] after[j]
                    <= start.val.up_one by {
                    assert(minutes[i + (j + 1)].close.at <= start.val.up_one);
                }
            }
        }
        let low = lows(minutes, i, i + 6);
        let high = highs(minutes, i, i + 6);
        order::law_lowest(low, order::lowest(low));
        order::law_highest(high, order::highest(high));
        assert forall|d: int| 0 <= d <= 5 implies order::lowest(low) <= (
        #[trigger] minutes[i + d]).low.at && minutes[i + d].high.at <= order::highest(high) by {
            assert(low[d] == minutes[i + d].low.at);
            assert(high[d] == minutes[i + d].high.at);
        }
        if low.contains(order::lowest(low)) {
            let d = choose|d: int| 0 <= d < low.len() && low[d] == order::lowest(low);
            assert(minutes[i + d].low.at == order::lowest(low));
        }
        if high.contains(order::highest(high)) {
            let d = choose|d: int| 0 <= d < high.len() && high[d] == order::highest(high);
            assert(minutes[i + d].high.at == order::highest(high));
        }
        assert(clock::is_instant(minutes[i + 5].ts_bucket));
    }
}

/// Whether an event is that of a move that a minute initiates.
pub open spec fn is_initiation(e: InitiationEventData, minutes: Seq<DerivedMinute>, i: int) -> bool {
    initiates(minutes, i, e.direction == 1) && tells_of(e, minutes, i, e.direction == 1)
}

/// Every event among minutes is that of a move that one of them initiates.
pub proof fn law_events_are_initiations(minutes: Seq<DerivedMinute>, hi: int, k: int)
    requires
        forall|j: int|
            0 <= j < minutes.len() ==> clock::is_instant((#[trigger] minutes[j]).ts_bucket),
        0 <= k < events_before(minutes, hi).len(),
    ensures
        exists|i: int| 0 <= i < hi && #[trigger] is_initiation(events_before(minutes, hi)[k], minutes, i),
    decreases hi,
{
    let rest = events_before(minutes, hi - 1);
    let all = events_before(minutes, hi);
    if k < rest.len() {
        law_events_are_initiations(minutes, hi - 1, k);
        let i = choose|i: int| 0 <= i < hi - 1 && #[trigger] is_initiation(rest[k], minutes, i);
        assert(all[k] == rest[k]);
        assert(is_initiation(all[k], minutes, i));
    } else {
        lemma_event_at(minutes, hi - 1);
        assert(is_initiation(all[k], minutes, hi - 1));
    }
}

/// Every move that a minute initiates has its event.
pub proof fn law_every_initiation_has_its_event(
    minutes: Seq<DerivedMinute>,
    hi: int,
    i: int,
    up: bool,
)
    requires
        forall|j: int|
            0 <= j < minutes.len() ==> clock::is_instant((#[trigger] minutes[j]).ts_bucket),
        0 <= i < hi,
        initiates(minutes, i, up),
    ensures
        exists|k: int|
            0 <= k < events_before(minutes, hi).len() && tells_of(
                #[trigger] events_before(minutes, hi)[k],
                minutes,
                i,
                up,
            ),
    decreases hi,
{
    let rest = events_before(minutes, hi - 1);
    let all = events_before(minutes, hi);
    if i < hi - 1 {
        law_every_initiation_has_its_event(minutes, hi - 1, i, up);
        let k = choose|k: int| 0 <= k < rest.len() && tells_of(#[trigger] rest[k], minutes, i, up);
        assert(all[k] == rest[k]);
    } else {
        lemma_event_at(minutes, i);
        assert(tells_of(all[all.len() - 1], minutes, i, up));
    }
}

/// The common end of two histories as the rules see it.
pub open spec fn common_minutes(futures: Seq<FuturesMinute>, spot: Seq<SpotMinute>) -> Seq<
    DerivedMinute,
> {
    let n = history::shorter(futures.len(), spot.len());
    derived_minutes(history::tail(futures, n), history::tail(spot, n))
}

proof fn lemma_stamps_are_instants(futures: Seq<FuturesMinute>, spot: Seq<SpotMinute>)
    requires
        forall|i: int|
            0 <= i < futures.len() ==> clock::is_instant((#[trigger] futures[i]).ts_bucket),
    ensures
        forall|i: int|
            0 <= i < common_minutes(futures, spot).len() ==> clock::is_instant(
                (#[trigger] common_minutes(futures, spot)[i]).ts_bucket,
            ),
{
    let n = history::shorter(futures.len(), spot.len());
    assert forall|i: int|
        0 <= i < common_minutes(futures, spot).len() implies clock::is_instant(
        (#[trigger] common_minutes(futures, spot)[i]).ts_bucket,
    ) by {
        assert(history::tail(futures, n)[i] == futures[futures.len() - n + i]);
    }
}

/// Over two histories every event is that of a move that a minute of their common end
/// initiates, and histories of fewer than 68 minutes have none.
pub proof fn law_every_event_is_an_initiation(
    futures: Seq<FuturesMinute>,
    spot: Seq<SpotMinute>,
    k: int,
)
    requires
        forall|i: int|
            0 <= i < futures.len() ==> clock::is_instant((#[trigger] futures[i]).ts_bucket),
        0 <= k < all_events(futures, spot).len(),
    ensures
        common_minutes(futures, spot).len() >= 68,
        exists|i: int| #[trigger]
            is_initiation(all_events(futures, spot)[k], common_minutes(futures, spot), i),
{
    lemma_stamps_are_instants(futures, spot);
    let minutes = common_minutes(futures, spot);
    law_events_are_initiations(minutes, minutes.len() as int, k);
}

/// Over two histories of at least 68 minutes every move that a minute of their common end
/// initiates has its event.
pub proof fn law_every_initiation_is_found(
    futures: Seq<FuturesMinute>,
    spot: Seq<SpotMinute>,
    i: int,
    up: bool,
)
    requires
        forall|j: int|
            0 <= j < futures.len() ==> clock::is_instant((#[trigger] futures[j]).ts_bucket),
        common_minutes(futures, spot).len() >= 68,
        initiates(common_minutes(futures, spot), i, up),
    ensures
        exists|k: int|
            0 <= k < all_events(futures, spot).len() && tells_of(
                #[trigger] all_events(futures, spot)[k],
                common_minutes(futures, spot),
                i,
                up,
            ),
{
    lemma_stamps_are_instants(futures, spot);
    let minutes = common_minutes(futures, spot);
    law_every_initiation_has_its_event(minutes, minutes.len() as int, i, up);
    let all = events_before(minutes, minutes.len() as int);
    let k = choose|k: int| 0 <= k < all.len() && tells_of(#[trigger] all[k], minutes, i, up);
    assert(all_events(futures, spot)[k] == all[k]);
}

/// The minutes that the rules see are those of the common end of both histories, with the
/// prices and the flow of futures as they are given; delta counts as standardised from the
/// sixtieth minute on.
pub proof fn law_minutes_as_seen(futures: Seq<FuturesMinute>, spot: Seq<SpotMinute>, i: int)
    requires
        0 <= i < futures.len(),
        i < spot.len(),
    ensures
        ({
            let n = if futures.len() < spot.len() {
                futures.len()
            } else {
                spot.len()
            };
            let seen = common_minutes(futures, spot);
            let m = seen[i];
            let f = futures[futures.len() - n + i];
            &&& seen.len() == n
            &&& m.ts_bucket == f.ts_bucket
            &&& m.high == f.quote.spec_high() && m.low == f.quote.spec_low()
            &&& m.close == f.quote.spec_close()
            &&& m.rdelta == f.rdelta && m.follow_delta == f.follow_delta
            &&& m.zdelta == (if i >= 59 {
                f.zdelta
            } else {
                0
            })
            &&& m.clv_bull == f.clv_bull && m.clv_bear == f.clv_bear
            &&& m.stacked_buy == f.stacked_buy && m.stacked_sell == f.stacked_sell
            &&& m.spot == spot[spot.len() - n + i]
        }),
{
    let n = history::shorter(futures.len(), spot.len());
    assert(history::tail(futures, n)[i] == futures[futures.len() - n + i]);
    assert(history::tail(spot, n)[i] == spot[spot.len() - n + i]);
}

/// The borders in force at a minute are those of the latest value area up to it, or its own
/// high and low before there is any.
pub proof fn law_borders_in_force(futures: Seq<FuturesMinute>, spot: Seq<SpotMinute>, j: int, i: int)
    requires
        -1 <= j <= i,
        0 <= i < futures.len(),
        i < spot.len(),
        j >= 0 ==> futures[j].value_area is Some,
        forall|k: int| j < k <= i ==> (#[trigger] futures[k]).value_area is None,
    ensures
        j >= 0 ==> derived_minutes(futures, spot)[i].vah == futures[j].value_area->0.vah
            && derived_minutes(futures, spot)[i].val == futures[j].value_area->0.val,
        j < 0 ==> derived_minutes(futures, spot)[i].vah == futures[i].quote.spec_high()
            && derived_minutes(futures, spot)[i].val == futures[i].quote.spec_low(),
{
    lemma_latest_area(futures, j, i + 1);
}

proof fn lemma_latest_area(futures: Seq<FuturesMinute>, j: int, hi: int)
    requires
        -1 <= j < hi <= futures.len(),
        j >= 0 ==> futures[j].value_area is Some,
        forall|k: int| j < k < hi ==> (#[trigger] futures[k]).value_area is None,
    ensures
        j >= 0 ==> latest_area(futures.take(hi)) == futures[j].value_area,
        j < 0 ==> latest_area(futures.take(hi)) is None,
    decreases hi,
{
    assert(hi > 0 ==> futures.take(hi).drop_last() =~= futures.take(hi - 1));
    if hi > 0 {
        assert(futures.take(hi).last() == futures[hi - 1]);
        if j < hi - 1 {
            lemma_latest_area(futures, j, hi - 1);
        }
    }
}

/// The thresholds of the rules: 1.5, 0.2, 0.7 and 0.05.
pub proof fn law_thresholds()
    ensures
        order::is_nearest(ZDELTA_MIN, 15, 10),
        order::is_nearest(RDELTA_MIN, 2, 10),
        order::is_nearest(CLV_MIN, 7, 10),
        order::is_nearest(SPOT_RDELTA_MIN, 5, 100),
{
    order::lemma_powers_of_two();
}

} // verus!
