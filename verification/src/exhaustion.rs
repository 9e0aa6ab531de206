//! Exhaustion: a push to a new extreme on fading flow that is then rejected.
//!
//! Two consecutive pivots of one kind make a candidate when the second goes
//! farther in price but not in flow. A close back through the bar of the second
//! pivot confirms it. Exhausted buying is found at highs, exhausted selling at
//! lows.

use crate::clock;
use crate::clock::{minutes_between, MINUTE_US};
#[allow(unused_imports)]
use crate::events;
use crate::events::{report_current, Confirmed, EventReport};
use crate::history;
use crate::history::{aligned_event_histories, lower_bound, Stamped};
use crate::order;
use crate::order::{Key, Price, Quote};
use crate::pivots;
use crate::pivots::{is_beyond, list_pivots};
use std::collections::VecDeque;
use vstd::prelude::*;

verus! {

/// Bars before a pivot that it has to stand out from.
pub const PIVOT_LEFT: usize = 3;

/// Bars after a pivot that may not exceed it.
pub const PIVOT_RIGHT: usize = 3;

/// Least whole minutes between two pivots of a candidate.
pub const MIN_LEG_GAP_MINUTES: i64 = 3;

/// Most whole minutes between two pivots of a candidate.
pub const MAX_LEG_GAP_MINUTES: i64 = 180;

/// Bars after the second pivot in which a close can confirm.
pub const CONFIRM_BARS: usize = 5;

/// The fewest minutes in which one pass over a history looks for events.
pub const MIN_HISTORY_MINUTES: usize = 14;

/// Minutes of history that the newest events depend on.
pub const EXHAUSTION_INCREMENTAL_LOOKBACK_MINUTES: i64 = 196;

/// The key of 0.65, the least rejection at the second pivot.
pub const ETA_REJECT: i64 = 0x3FE4_CCCC_CCCC_CCCD;

/// The key of 100000, the spot flow that speaks against exhaustion.
pub const THETA_WHALE: i64 = 0x40F8_6A00_0000_0000;

/// A flow figure together with the figures a tolerance below and above it.
#[derive(Clone, Copy, Debug, PartialEq, Eq)]
pub struct Flow {
    /// The figure itself.
    pub at: Key,
    /// The figure less the tolerance.
    pub less: Key,
    /// The figure plus the tolerance.
    pub more: Key,
}

/// What a minute of futures trading contributes.
#[derive(Clone, Copy, Debug, PartialEq, Eq)]
pub struct FuturesMinute {
    /// Start of the minute.
    pub ts_bucket: i64,
    /// Prices of the minute.
    pub quote: Quote,
    /// Delta, with a tolerance of 20.
    pub delta: Flow,
    /// Delta relative to volume, with a tolerance of 0.05.
    pub rdelta: Flow,
    /// Distance of the close from the high, relative to the range.
    pub reject_top: Key,
    /// Distance of the close from the low, relative to the range.
    pub reject_bottom: Key,
}

/// What a minute of spot trading contributes.
#[derive(Clone, Copy, Debug, PartialEq, Eq)]
pub struct SpotMinute {
    /// Start of the minute.
    pub ts_bucket: i64,
    /// Cumulative delta.
    pub cvd: Key,
    /// Delta valued at the close.
    pub whale_notional: Key,
}

/// A minute as the rules see it.
#[derive(Clone, Copy, Debug, PartialEq, Eq)]
pub struct DerivedMinute {
    /// Running number of the minute.
    pub seq: usize,
    /// Start of the minute.
    pub ts_bucket: i64,
    /// High.
    pub high: Price,
    /// Low.
    pub low: Price,
    /// Close.
    pub close: Price,
    /// Delta.
    pub delta: Flow,
    /// Delta relative to volume.
    pub rdelta: Flow,
    /// Distance of the close from the high, relative to the range.
    pub reject_top: Key,
    /// Distance of the close from the low, relative to the range.
    pub reject_bottom: Key,
    /// The spot minute beside it.
    pub spot: SpotMinute,
}

/// Two pivots that wait for a confirming close.
#[derive(Clone, Copy, Debug, PartialEq, Eq)]
pub struct PendingCandidate {
    /// -1 at highs, 1 at lows.
    pub direction: i16,
    /// Running number of the first pivot.
    pub pivot_seq_1: usize,
    /// Running number of the second pivot.
    pub pivot_seq_2: usize,
}

/// An exhausted push that was rejected.
#[derive(Clone, Copy, Debug, PartialEq, Eq)]
pub struct ExhaustionEventData {
    /// -1 for exhausted buying, 1 for exhausted selling.
    pub direction: i16,
    /// Start of the first pivot's minute.
    pub start_ts: i64,
    /// End of the confirming minute.
    pub end_ts: i64,
    /// When the event is known.
    pub confirm_ts: i64,
    /// Extreme of the second pivot.
    pub pivot_price: Key,
    /// Start of the first pivot's minute.
    pub pivot_ts_1: i64,
    /// Start of the second pivot's minute.
    pub pivot_ts_2: i64,
    /// When the first pivot was known.
    pub pivot_confirm_ts_1: i64,
    /// When the second pivot was known.
    pub pivot_confirm_ts_2: i64,
    /// Rejection at the second pivot.
    pub reject_ratio: Key,
    /// Bars from the second pivot to the confirming one.
    pub confirm_bars: usize,
}

/// An event with the first instant that its history has to reach back to.
#[derive(Clone, Copy, Debug, PartialEq, Eq)]
pub struct CachedEvent {
    /// Start of the first bar that the first pivot had to stand out from.
    pub required_start_ts: i64,
    /// The event.
    pub event: ExhaustionEventData,
}

impl Stamped for FuturesMinute {
    open spec fn at(&self) -> i64 {
        self.ts_bucket
    }

    fn ts(&self) -> (out: i64) {
        self.ts_bucket
    }
}

/// A minute as the rules see it.
pub open spec fn derive_minute(futures: FuturesMinute, spot: SpotMinute, seq: int) -> DerivedMinute {
    DerivedMinute {
        seq: seq as usize,
        ts_bucket: futures.ts_bucket,
        high: futures.quote.spec_high(),
        low: futures.quote.spec_low(),
        close: futures.quote.spec_close(),
        delta: futures.delta,
        rdelta: futures.rdelta,
        reject_top: futures.reject_top,
        reject_bottom: futures.reject_bottom,
        spot,
    }
}

/// A minute as the rules see it.
pub fn derived(futures: &FuturesMinute, spot: &SpotMinute, seq: usize) -> (out: DerivedMinute)
    ensures
        out == derive_minute(*futures, *spot, seq as int),
{
    DerivedMinute {
        seq,
        ts_bucket: futures.ts_bucket,
        high: futures.quote.high_or_zero(),
        low: futures.quote.low_or_zero(),
        close: futures.quote.close_or_zero(),
        delta: futures.delta,
        rdelta: futures.rdelta,
        reject_top: futures.reject_top,
        reject_bottom: futures.reject_bottom,
        spot: *spot,
    }
}

/// The extreme of a minute: its high or its low.
pub open spec fn extreme(minute: DerivedMinute, high: bool) -> Key {
    if high {
        minute.high.at
    } else {
        minute.low.at
    }
}

/// The extremes of a run of minutes.
pub open spec fn extremes(minutes: Seq<DerivedMinute>, high: bool) -> Seq<Key> {
    Seq::new(minutes.len(), |i: int| extreme(minutes[i], high))
}

/// Whether `second` pushes at least two ticks beyond `first` on flow that fades by
/// more than the tolerances, and closes away from its extreme.
pub open spec fn fades(first: DerivedMinute, second: DerivedMinute, high: bool) -> bool {
    if high {
        &&& second.high.at >= first.high.up_two
        &&& second.delta.at <= first.delta.less
        &&& second.rdelta.at <= first.rdelta.less
        &&& second.reject_top >= ETA_REJECT
    } else {
        &&& second.low.at <= first.low.down_two
        &&& second.delta.at >= first.delta.more
        &&& second.rdelta.at >= first.rdelta.more
        &&& second.reject_bottom >= ETA_REJECT
    }
}

/// Whether two pivots make a candidate.
pub open spec fn makes_candidate(first: DerivedMinute, second: DerivedMinute, high: bool) -> bool {
    let leg = clock::whole_minutes(second.ts_bucket - first.ts_bucket);
    MIN_LEG_GAP_MINUTES <= leg <= MAX_LEG_GAP_MINUTES && fades(first, second, high)
}

/// Whether `current` closes two ticks through the far side of the pivot's bar.
pub open spec fn confirms(pivot: DerivedMinute, current: DerivedMinute, high: bool) -> bool {
    if high {
        current.close.at <= pivot.low.down_two
    } else {
        current.close.at >= pivot.high.up_two
    }
}

/// The direction of the events of one side.
pub open spec fn direction_of(high: bool) -> i16 {
    if high {
        (-1) as i16
    } else {
        1
    }
}

/// The event of two pivots and a confirming minute.
pub open spec fn confirmed_event(
    first: DerivedMinute,
    second: DerivedMinute,
    confirm: DerivedMinute,
    bars: int,
    high: bool,
) -> ExhaustionEventData {
    ExhaustionEventData {
        direction: direction_of(high),
        start_ts: first.ts_bucket,
        end_ts: (confirm.ts_bucket + MINUTE_US) as i64,
        confirm_ts: (confirm.ts_bucket + MINUTE_US) as i64,
        pivot_price: extreme(second, high),
        pivot_ts_1: first.ts_bucket,
        pivot_ts_2: second.ts_bucket,
        pivot_confirm_ts_1: (first.ts_bucket + PIVOT_RIGHT * MINUTE_US) as i64,
        pivot_confirm_ts_2: (second.ts_bucket + PIVOT_RIGHT * MINUTE_US) as i64,
        reject_ratio: if high {
            second.reject_top
        } else {
            second.reject_bottom
        },
        confirm_bars: bars as usize,
    }
}

/// The first index of `from..=to` whose minute confirms the pivot at `pivot`.
pub open spec fn first_confirm(
    minutes: Seq<DerivedMinute>,
    pivot: int,
    from: int,
    to: int,
    high: bool,
) -> Option<int>
    decreases to - from + 1,
{
    if from > to {
        None
    } else if confirms(minutes[pivot], minutes[from], high) {
        Some(from)
    } else {
        first_confirm(minutes, pivot, from + 1, to, high)
    }
}

/// The lower of two indices.
pub open spec fn not_past(i: int, last: int) -> int {
    if i <= last {
        i
    } else {
        last
    }
}

/// The event of the pivots `t1` and `t2`, confirmed by one of the bars that start
/// `delay` after the second, no later than `last`.
pub open spec fn pair_event(
    minutes: Seq<DerivedMinute>,
    t1: int,
    t2: int,
    delay: int,
    last: int,
    high: bool,
) -> Option<ExhaustionEventData> {
    if t2 + 1 >= minutes.len() || !makes_candidate(minutes[t1], minutes[t2], high) {
        None
    } else {
        match first_confirm(minutes, t2, t2 + delay, not_past(t2 + CONFIRM_BARS, last), high) {
            Some(tc) => Some(
                confirmed_event(minutes[t1], minutes[t2], minutes[tc], tc - t2, high),
            ),
            None => None,
        }
    }
}

/// The events of the first `pairs` pairs of neighbouring pivots.
pub open spec fn pair_events(
    minutes: Seq<DerivedMinute>,
    pivots: Seq<int>,
    pairs: int,
    delay: int,
    last: int,
    high: bool,
) -> Seq<ExhaustionEventData>
    decreases pairs,
{
    if pairs <= 0 {
        Seq::empty()
    } else {
        let rest = pair_events(minutes, pivots, pairs - 1, delay, last, high);
        match pair_event(minutes, pivots[pairs - 1], pivots[pairs], delay, last, high) {
            Some(event) => rest.push(event),
            None => rest,
        }
    }
}

/// Whether two pivots make a candidate.
fn is_candidate(first: &DerivedMinute, second: &DerivedMinute, high: bool) -> (out: bool)
    requires
        clock::is_instant(first.ts_bucket),
        clock::is_instant(second.ts_bucket),
    ensures
        out == makes_candidate(*first, *second, high),
{
    let leg: i64 = minutes_between(first.ts_bucket, second.ts_bucket);
    if leg < MIN_LEG_GAP_MINUTES || leg > MAX_LEG_GAP_MINUTES {
        return false;
    }
    if high {
        second.high.at >= first.high.up_two && second.delta.at <= first.delta.less
            && second.rdelta.at <= first.rdelta.less && second.reject_top >= ETA_REJECT
    } else {
        second.low.at <= first.low.down_two && second.delta.at >= first.delta.more
            && second.rdelta.at >= first.rdelta.more && second.reject_bottom >= ETA_REJECT
    }
}

/// Whether `current` closes two ticks through the far side of the pivot's bar.
fn is_confirmed(pivot: &DerivedMinute, current: &DerivedMinute, high: bool) -> (out: bool)
    ensures
        out == confirms(*pivot, *current, high),
{
    if high {
        current.close.at <= pivot.low.down_two
    } else {
        current.close.at >= pivot.high.up_two
    }
}

/// The event of two pivots and a confirming minute.
fn event_of(
    first: &DerivedMinute,
    second: &DerivedMinute,
    confirm: &DerivedMinute,
    bars: usize,
    high: bool,
) -> (out: ExhaustionEventData)
    requires
        clock::is_instant(first.ts_bucket),
        clock::is_instant(second.ts_bucket),
        clock::is_instant(confirm.ts_bucket),
    ensures
        out == confirmed_event(*first, *second, *confirm, bars as int, high),
{
    let end: i64 = confirm.ts_bucket + MINUTE_US;
    ExhaustionEventData {
        direction: if high {
            -1
        } else {
            1
        },
        start_ts: first.ts_bucket,
        end_ts: end,
        confirm_ts: end,
        pivot_price: if high {
            second.high.at
        } else {
            second.low.at
        },
        pivot_ts_1: first.ts_bucket,
        pivot_ts_2: second.ts_bucket,
        pivot_confirm_ts_1: first.ts_bucket + 3 * MINUTE_US,
        pivot_confirm_ts_2: second.ts_bucket + 3 * MINUTE_US,
        reject_ratio: if high {
            second.reject_top
        } else {
            second.reject_bottom
        },
        confirm_bars: bars,
    }
}

/// The events of neighbouring pivots of one side, each confirmed by the first of
/// the bars after its second pivot that does.
fn detect_events(
    minutes: &[DerivedMinute],
    pivots: &[usize],
    last_idx: usize,
    high: bool,
) -> (out: Vec<ExhaustionEventData>)
    requires
        forall|i: int|
            0 <= i < minutes@.len() ==> clock::is_instant(#[trigger] minutes@[i].ts_bucket),
        forall|p: int|
            1 <= p < pivots@.len() && #[trigger] pivots@[p] + 1 < minutes@.len() ==> pivots@[p - 1]
                < minutes@.len(),
        last_idx < minutes@.len(),
        minutes@.len() + CONFIRM_BARS <= usize::MAX,
    ensures
        out@ == pair_events(
            minutes@,
            pivots@.map_values(|i: usize| i as int),
            pivots@.len() - 1,
            1,
            last_idx as int,
            high,
        ),
{
    let mut out: Vec<ExhaustionEventData> = Vec::new();
    let ghost listed = pivots@.map_values(|i: usize| i as int);
    let n: usize = pivots.len();
    let mut p: usize = 1;
    while p < n
        invariant
            n == pivots@.len(),
            n == 0 || 1 <= p <= n,
            n == 0 ==> p == 1,
            listed == pivots@.map_values(|i: usize| i as int),
            forall|i: int|
                0 <= i < minutes@.len() ==> clock::is_instant(#[trigger] minutes@[i].ts_bucket),
            forall|q: int|
                1 <= q < pivots@.len() && #[trigger] pivots@[q] + 1 < minutes@.len() ==> pivots@[q
                    - 1] < minutes@.len(),
            last_idx < minutes@.len(),
            minutes@.len() + CONFIRM_BARS <= usize::MAX,
            out@ == pair_events(minutes@, listed, p - 1, 1, last_idx as int, high),
        decreases n - p,
    {
        let t1: usize = pivots[p - 1];
        let t2: usize = pivots[p];
        p += 1;
        if t2 >= minutes.len() - 1 || !is_candidate(&minutes[t1], &minutes[t2], high) {
            continue;
        }
        let end: usize = if t2 + CONFIRM_BARS <= last_idx {
            t2 + CONFIRM_BARS
        } else {
            last_idx
        };
        let mut tc: usize = t2 + 1;
        while tc <= end && !is_confirmed(&minutes[t2], &minutes[tc], high)
            invariant
                t2 < tc <= t2 + CONFIRM_BARS + 1,
                t2 < minutes@.len(),
                end < minutes@.len(),
                end <= t2 + CONFIRM_BARS,
                minutes@.len() + CONFIRM_BARS <= usize::MAX,
                first_confirm(minutes@, t2 as int, t2 + 1, end as int, high) == first_confirm(
                    minutes@,
                    t2 as int,
                    tc as int,
                    end as int,
                    high,
                ),
            decreases t2 + CONFIRM_BARS + 1 - tc,
        {
            tc += 1;
        }
        if tc <= end {
            out.push(event_of(&minutes[t1], &minutes[t2], &minutes[tc], tc - t2, high));
        }
    }
    out
}

/// The events of exhausted buying at neighbouring high pivots.
pub fn detect_buying_events(minutes: &[DerivedMinute], pivots: &[usize], last_idx: usize) -> (out:
    Vec<ExhaustionEventData>)
    requires
        forall|i: int|
            0 <= i < minutes@.len() ==> clock::is_instant(#[trigger] minutes@[i].ts_bucket),
        forall|p: int|
            1 <= p < pivots@.len() && #[trigger] pivots@[p] + 1 < minutes@.len() ==> pivots@[p - 1]
                < minutes@.len(),
        last_idx < minutes@.len(),
        minutes@.len() + CONFIRM_BARS <= usize::MAX,
    ensures
        out@ == pair_events(
            minutes@,
            pivots@.map_values(|i: usize| i as int),
            pivots@.len() - 1,
            1,
            last_idx as int,
            true,
        ),
{
    detect_events(minutes, pivots, last_idx, true)
}

/// The events of exhausted selling at neighbouring low pivots.
pub fn detect_selling_events(minutes: &[DerivedMinute], pivots: &[usize], last_idx: usize) -> (out:
    Vec<ExhaustionEventData>)
    requires
        forall|i: int|
            0 <= i < minutes@.len() ==> clock::is_instant(#[trigger] minutes@[i].ts_bucket),
        forall|p: int|
            1 <= p < pivots@.len() && #[trigger] pivots@[p] + 1 < minutes@.len() ==> pivots@[p - 1]
                < minutes@.len(),
        last_idx < minutes@.len(),
        minutes@.len() + CONFIRM_BARS <= usize::MAX,
    ensures
        out@ == pair_events(
            minutes@,
            pivots@.map_values(|i: usize| i as int),
            pivots@.len() - 1,
            1,
            last_idx as int,
            false,
        ),
{
    detect_events(minutes, pivots, last_idx, false)
}

/// The highs that stand out from the three bars on either side.
pub fn confirmed_high_pivots(highs: &[Key]) -> (out: Vec<usize>)
    ensures
        out@.map_values(|i: usize| i as int) == pivots::all_pivots(highs@, PIVOT_LEFT as int, true),
{
    list_pivots(highs, PIVOT_LEFT, true)
}

/// The lows that stand out from the three bars on either side.
pub fn confirmed_low_pivots(lows: &[Key]) -> (out: Vec<usize>)
    ensures
        out@.map_values(|i: usize| i as int) == pivots::all_pivots(lows@, PIVOT_LEFT as int, false),
{
    list_pivots(lows, PIVOT_LEFT, false)
}

/// A whole history as the rules see it.
pub open spec fn derived_minutes(futures: Seq<FuturesMinute>, spot: Seq<SpotMinute>) -> Seq<
    DerivedMinute,
> {
    Seq::new(futures.len(), |i: int| derive_minute(futures[i], spot[i], i))
}

/// The events of one side of a history, confirmed no sooner than `delay` bars
/// after the second pivot.
pub open spec fn side_events(minutes: Seq<DerivedMinute>, delay: int, high: bool) -> Seq<
    ExhaustionEventData,
> {
    let listed = pivots::all_pivots(extremes(minutes, high), PIVOT_LEFT as int, high);
    pair_events(minutes, listed, listed.len() - 1, delay, minutes.len() - 1, high)
}

/// The common end of two histories as the rules see it.
pub open spec fn common_minutes(futures: Seq<FuturesMinute>, spot: Seq<SpotMinute>) -> Seq<
    DerivedMinute,
> {
    let n = history::shorter(futures.len(), spot.len());
    derived_minutes(history::tail(futures, n), history::tail(spot, n))
}

/// The events of one side that one pass over two histories finds.
pub open spec fn direct_events(
    futures: Seq<FuturesMinute>,
    spot: Seq<SpotMinute>,
    high: bool,
) -> Seq<ExhaustionEventData> {
    let minutes = common_minutes(futures, spot);
    if minutes.len() < MIN_HISTORY_MINUTES {
        Seq::empty()
    } else {
        side_events(minutes, 1, high)
    }
}

/// The events that one pass over two histories finds: those of exhausted buying,
/// then those of exhausted selling.
pub open spec fn all_events(futures: Seq<FuturesMinute>, spot: Seq<SpotMinute>) -> Seq<
    ExhaustionEventData,
> {
    direct_events(futures, spot, true) + direct_events(futures, spot, false)
}

/// The events of two histories, found in one pass over their common end.
pub fn compute_exhaustion_all_history_from_histories(
    history_futures: &[FuturesMinute],
    history_spot: &[SpotMinute],
) -> (out: Vec<ExhaustionEventData>)
    requires
        history_futures@.len() + CONFIRM_BARS <= usize::MAX,
        forall|i: int|
            0 <= i < history_futures@.len() ==> clock::is_instant(
                #[trigger] history_futures@[i].ts_bucket,
            ),
    ensures
        out@ == all_events(history_futures@, history_spot@),
{
    let (futures, spot) = aligned_event_histories(history_futures, history_spot);
    let n: usize = futures.len();
    if n < MIN_HISTORY_MINUTES {
        return Vec::new();
    }
    let mut minutes: Vec<DerivedMinute> = Vec::new();
    let mut highs: Vec<Key> = Vec::new();
    let mut lows: Vec<Key> = Vec::new();
    let mut i: usize = 0;
    while i < n
        invariant
            i <= n,
            n == futures@.len(),
            n == spot@.len(),
            minutes@ =~= derived_minutes(futures@, spot@).take(i as int),
            highs@ =~= extremes(minutes@, true),
            lows@ =~= extremes(minutes@, false),
        decreases n - i,
    {
        let minute: DerivedMinute = derived(&futures[i], &spot[i], i);
        highs.push(minute.high.at);
        lows.push(minute.low.at);
        minutes.push(minute);
        i += 1;
    }
    proof {
        assert(minutes@ =~= derived_minutes(futures@, spot@));
    }
    let high_pivots: Vec<usize> = confirmed_high_pivots(&highs);
    let low_pivots: Vec<usize> = confirmed_low_pivots(&lows);
    proof {
        lemma_listed_in_range(high_pivots@, highs@, true);
        lemma_listed_in_range(low_pivots@, lows@, false);
    }
    let mut out: Vec<ExhaustionEventData> = detect_buying_events(&minutes, &high_pivots, n - 1);
    let mut selling: Vec<ExhaustionEventData> = detect_selling_events(&minutes, &low_pivots, n - 1);
    proof {
        assert(high_pivots@.len() == high_pivots@.map_values(|i: usize| i as int).len());
        assert(low_pivots@.len() == low_pivots@.map_values(|i: usize| i as int).len());
    }
    out.append(&mut selling);
    out
}

proof fn lemma_listed_in_range(listed: Seq<usize>, values: Seq<Key>, high: bool)
    requires
        listed.map_values(|i: usize| i as int) == pivots::all_pivots(
            values,
            PIVOT_LEFT as int,
            high,
        ),
    ensures
        forall|i: int| 0 <= i < listed.len() ==> #[trigger] listed[i] < values.len(),
{
    pivots::law_pivots_listed(values, values.len() as int, PIVOT_LEFT as int, high);
    assert forall|i: int| 0 <= i < listed.len() implies #[trigger] listed[i] < values.len() by {
        assert(listed.map_values(|i: usize| i as int)[i] == listed[i]);
    }
}

/// Whether spot trading speaks against exhaustion, and whether it bears it out,
/// given its cumulative delta and its flow from the second pivot to the
/// confirming minute. One is always the opposite of the other.
pub fn spot_flags(direction: i16, spot_cvd_push: Key, spot_whale_push: Key) -> (out: (bool, bool))
    ensures
        direction < 0 ==> out.0 == (spot_cvd_push > 0 || spot_whale_push > THETA_WHALE),
        direction >= 0 ==> out.0 == (spot_cvd_push < 0 || spot_whale_push < -THETA_WHALE),
        out.1 == !out.0,
{
    if direction < 0 {
        (
            spot_cvd_push > 0 || spot_whale_push > THETA_WHALE,
            spot_cvd_push <= 0 && spot_whale_push <= THETA_WHALE,
        )
    } else {
        (
            spot_cvd_push < 0 || spot_whale_push < -THETA_WHALE,
            spot_cvd_push >= 0 && spot_whale_push >= -THETA_WHALE,
        )
    }
}

/// The name of an event by its direction.
pub fn event_type(direction: i16) -> (out: &'static str)
    ensures
        out@ == if direction < 0 {
            "buying_exhaustion"@
        } else {
            "selling_exhaustion"@
        },
{
    if direction < 0 {
        "buying_exhaustion"
    } else {
        "selling_exhaustion"
    }
}

/// The state of the machine as mathematics sees it.
#[verifier::ext_equal]
pub struct MachineState {
    /// The minutes kept, oldest first.
    pub minutes: Seq<DerivedMinute>,
    /// The candidates that are not settled, oldest first.
    pub pending: Seq<PendingCandidate>,
    /// The events found, oldest first.
    pub events: Seq<CachedEvent>,
    /// Running number of the newest high pivot.
    pub last_high: Option<usize>,
    /// Running number of the newest low pivot.
    pub last_low: Option<usize>,
    /// Start of the newest minute.
    pub last_ts: Option<i64>,
    /// The running number of the next minute.
    pub next_seq: int,
}

/// A machine that has seen nothing.
pub open spec fn fresh() -> MachineState {
    MachineState {
        minutes: Seq::empty(),
        pending: Seq::empty(),
        events: Seq::empty(),
        last_high: None,
        last_low: None,
        last_ts: None,
        next_seq: 0,
    }
}

/// The minute with the given running number, if it is kept.
pub open spec fn minute_of(minutes: Seq<DerivedMinute>, seq: int) -> Option<DerivedMinute> {
    let first = minutes[0].seq;
    if minutes.len() > 0 && first <= seq < first + minutes.len() {
        Some(minutes[seq - first])
    } else {
        None
    }
}

/// The event of a candidate that the minute `confirm_seq` confirms.
pub open spec fn settled_event(
    minutes: Seq<DerivedMinute>,
    candidate: PendingCandidate,
    confirm_seq: int,
) -> Option<CachedEvent> {
    match (
        minute_of(minutes, candidate.pivot_seq_1 as int),
        minute_of(minutes, candidate.pivot_seq_2 as int),
        minute_of(minutes, confirm_seq),
    ) {
        (Some(first), Some(second), Some(confirm)) => Some(
            CachedEvent {
                required_start_ts: (first.ts_bucket - PIVOT_LEFT * MINUTE_US) as i64,
                event: confirmed_event(
                    first,
                    second,
                    confirm,
                    confirm_seq - candidate.pivot_seq_2,
                    candidate.direction < 0,
                ),
            },
        ),
        _ => None,
    }
}

/// What a minute does to a candidate.
pub enum Fate {
    /// The candidate stays open.
    Stays,
    /// The candidate is confirmed.
    Confirmed,
    /// The candidate is given up.
    Dropped,
}

/// What `minute`, the newest of `minutes`, does to a candidate.
pub open spec fn fate(
    minutes: Seq<DerivedMinute>,
    candidate: PendingCandidate,
    minute: DerivedMinute,
) -> Fate {
    if minute.seq <= candidate.pivot_seq_2 {
        Fate::Stays
    } else {
        match minute_of(minutes, candidate.pivot_seq_2 as int) {
            None => Fate::Dropped,
            Some(pivot) => if confirms(pivot, minute, candidate.direction < 0) {
                Fate::Confirmed
            } else if minute.seq < candidate.pivot_seq_2 + CONFIRM_BARS {
                Fate::Stays
            } else {
                Fate::Dropped
            },
        }
    }
}

/// The candidates that are still open after `minute`.
pub open spec fn open_after(
    minutes: Seq<DerivedMinute>,
    pending: Seq<PendingCandidate>,
    minute: DerivedMinute,
) -> Seq<PendingCandidate>
    decreases pending.len(),
{
    if pending.len() == 0 {
        Seq::empty()
    } else {
        let rest = open_after(minutes, pending.drop_last(), minute);
        if fate(minutes, pending.last(), minute) is Stays {
            rest.push(pending.last())
        } else {
            rest
        }
    }
}

/// The events that `minute` confirms.
pub open spec fn settled_by(
    minutes: Seq<DerivedMinute>,
    pending: Seq<PendingCandidate>,
    minute: DerivedMinute,
) -> Seq<CachedEvent>
    decreases pending.len(),
{
    if pending.len() == 0 {
        Seq::empty()
    } else {
        let rest = settled_by(minutes, pending.drop_last(), minute);
        if fate(minutes, pending.last(), minute) is Confirmed {
            match settled_event(minutes, pending.last(), minute.seq as int) {
                Some(event) => rest.push(event),
                None => rest,
            }
        } else {
            rest
        }
    }
}

/// The candidate that a new pivot makes with the pivot before it, if any.
pub open spec fn new_candidate(
    minutes: Seq<DerivedMinute>,
    previous: Option<usize>,
    pivot: DerivedMinute,
    high: bool,
) -> Option<PendingCandidate> {
    match previous {
        Some(seq) => match minute_of(minutes, seq as int) {
            Some(first) => if makes_candidate(first, pivot, high) {
                Some(
                    PendingCandidate {
                        direction: direction_of(high),
                        pivot_seq_1: seq,
                        pivot_seq_2: pivot.seq,
                    },
                )
            } else {
                None
            },
            None => None,
        },
        None => None,
    }
}

impl MachineState {
    /// The newest pivot of one side.
    pub open spec fn last_pivot(self, high: bool) -> Option<usize> {
        if high {
            self.last_high
        } else {
            self.last_low
        }
    }

    /// The state after looking for a pivot that the newest minute completes.
    pub open spec fn pivot_checked(self, high: bool) -> MachineState {
        let i = self.minutes.len() - 1 - PIVOT_RIGHT;
        if pivots::is_pivot(extremes(self.minutes, high), i, PIVOT_LEFT as int, high) {
            let pivot = self.minutes[i];
            MachineState {
                pending: match new_candidate(self.minutes, self.last_pivot(high), pivot, high) {
                    Some(candidate) => self.pending.push(candidate),
                    None => self.pending,
                },
                last_high: if high {
                    Some(pivot.seq)
                } else {
                    self.last_high
                },
                last_low: if high {
                    self.last_low
                } else {
                    Some(pivot.seq)
                },
                ..self
            }
        } else {
            self
        }
    }

    /// The state after one more minute has been taken in, before pivots are looked for.
    pub open spec fn taken_in(self, minute: DerivedMinute) -> MachineState {
        let minutes = self.minutes.push(minute);
        MachineState {
            minutes,
            pending: open_after(minutes, self.pending, minute),
            events: self.events + settled_by(minutes, self.pending, minute),
            next_seq: self.next_seq + 1,
            ..self
        }
    }

    /// The state after one more pair of minutes.
    pub open spec fn append(self, futures: FuturesMinute, spot: SpotMinute) -> MachineState {
        self.taken_in(derive_minute(futures, spot, self.next_seq)).pivot_checked(true).pivot_checked(
            false,
        )
    }

    /// The state after a run of pairs of minutes.
    pub open spec fn replay(self, futures: Seq<FuturesMinute>, spot: Seq<SpotMinute>) -> MachineState
        decreases futures.len(),
    {
        if futures.len() == 0 {
            self
        } else {
            self.replay(futures.drop_last(), spot.drop_last()).append(futures.last(), spot.last())
        }
    }

    /// The same state with another newest minute.
    pub open spec fn ending_at(self, last_ts: Option<i64>) -> MachineState {
        MachineState { last_ts, ..self }
    }

    /// The state without what reaches back before `first_ts`.
    pub open spec fn pruned(self, first_ts: i64) -> MachineState {
        let minutes = history::drop_while(self.minutes, starts_before(first_ts));
        MachineState {
            minutes,
            events: history::drop_while(self.events, needs_before(first_ts)),
            pending: history::drop_while(self.pending, pivot_is_gone(minutes)),
            last_high: kept_pivot(minutes, self.last_high),
            last_low: kept_pivot(minutes, self.last_low),
            ..self
        }
    }

    /// The state that running the machine over two histories leaves.
    pub open spec fn rebuilt(futures: Seq<FuturesMinute>, spot: Seq<SpotMinute>) -> MachineState {
        let n = history::shorter(futures.len(), spot.len());
        let f = history::tail(futures, n);
        fresh().replay(f, history::tail(spot, n)).ending_at(
            if n == 0 {
                None
            } else {
                Some(f.last().ts_bucket)
            },
        )
    }

    /// The state after the machine has been brought up to two histories.
    pub open spec fn synced(self, futures: Seq<FuturesMinute>, spot: Seq<SpotMinute>) -> MachineState {
        let n = history::shorter(futures.len(), spot.len());
        let f = history::tail(futures, n);
        let s = history::tail(spot, n);
        if n == 0 {
            fresh()
        } else {
            match self.last_ts {
                Some(seen) if seen < f.last().ts_bucket => {
                    let kept = self.pruned(f[0].ts_bucket);
                    let k = history::first_at_or_after(history::stamps(f), (seen + MINUTE_US) as i64);
                    if k == 0 && kept.minutes.len() == 0 {
                        MachineState::rebuilt(f, s)
                    } else {
                        kept.replay(f.subrange(k, n), s.subrange(k, n)).ending_at(
                            Some(f.last().ts_bucket),
                        )
                    }
                },
                _ => MachineState::rebuilt(f, s),
            }
        }
    }

    /// The minutes are numbered without gaps up to the newest.
    pub open spec fn numbered(self) -> bool {
        &&& 0 <= self.minutes.len() <= self.next_seq
        &&& forall|i: int|
            0 <= i < self.minutes.len() ==> #[trigger] self.minutes[i].seq == self.next_seq
                - self.minutes.len() + i
        &&& forall|i: int|
            0 <= i < self.minutes.len() ==> clock::is_instant(#[trigger] self.minutes[i].ts_bucket)
    }

    /// What holds between operations: the minutes are numbered without gaps and
    /// every open candidate is about minutes already seen.
    pub open spec fn well_formed(self) -> bool {
        &&& self.numbered()
        &&& forall|i: int|
            0 <= i < self.pending.len() ==> (#[trigger] self.pending[i]).pivot_seq_2 < self.next_seq
        &&& self.last_ts matches Some(ts) ==> clock::is_instant(ts)
    }
}

/// Of minutes: starts before `first_ts`.
pub open spec fn starts_before(first_ts: i64) -> spec_fn(DerivedMinute) -> bool {
    |minute: DerivedMinute| minute.ts_bucket < first_ts
}

/// Of events: needs history before `first_ts`.
pub open spec fn needs_before(first_ts: i64) -> spec_fn(CachedEvent) -> bool {
    |entry: CachedEvent| entry.required_start_ts < first_ts || entry.event.start_ts < first_ts
}

/// Of candidates: the minute of its first pivot is not kept.
pub open spec fn pivot_is_gone(minutes: Seq<DerivedMinute>) -> spec_fn(PendingCandidate) -> bool {
    |candidate: PendingCandidate| minute_of(minutes, candidate.pivot_seq_1 as int) is None
}

/// A pivot, if its minute is kept.
pub open spec fn kept_pivot(minutes: Seq<DerivedMinute>, pivot: Option<usize>) -> Option<usize> {
    match pivot {
        Some(seq) => if minute_of(minutes, seq as int) is Some {
            pivot
        } else {
            None
        },
        None => None,
    }
}

/// Finds exhaustion events minute by minute.
pub struct ExhaustionEventStateMachine {
    minutes: VecDeque<DerivedMinute>,
    pending: VecDeque<PendingCandidate>,
    events: VecDeque<CachedEvent>,
    last_high_pivot: Option<usize>,
    last_low_pivot: Option<usize>,
    last_ts: Option<i64>,
    next_seq: usize,
}

impl View for ExhaustionEventStateMachine {
    type V = MachineState;

    closed spec fn view(&self) -> MachineState {
        MachineState {
            minutes: self.minutes@,
            pending: self.pending@,
            events: self.events@,
            last_high: self.last_high_pivot,
            last_low: self.last_low_pivot,
            last_ts: self.last_ts,
            next_seq: self.next_seq as int,
        }
    }
}

impl Default for ExhaustionEventStateMachine {
    fn default() -> (out: Self)
        ensures
            out@ == fresh(),
            out@.well_formed(),
    {
        ExhaustionEventStateMachine {
            minutes: VecDeque::new(),
            pending: VecDeque::new(),
            events: VecDeque::new(),
            last_high_pivot: None,
            last_low_pivot: None,
            last_ts: None,
            next_seq: 0,
        }
    }
}

impl ExhaustionEventStateMachine {
    /// The place of the minute with the given running number.
    fn offset_of(&self, seq: usize) -> (out: Option<usize>)
        requires
            self@.numbered(),
        ensures
            out is Some <==> minute_of(self@.minutes, seq as int) is Some,
            out matches Some(i) ==> i < self@.minutes.len() && minute_of(self@.minutes, seq as int)
                == Some(self@.minutes[i as int]),
    {
        if self.minutes.len() == 0 {
            return None;
        }
        let first: usize = self.minutes[0].seq;
        if seq < first || seq - first >= self.minutes.len() {
            return None;
        }
        Some(seq - first)
    }

    /// The event of a candidate that the minute `confirm_seq` confirms.
    fn build_event(&self, candidate: &PendingCandidate, confirm_seq: usize) -> (out: Option<
        CachedEvent,
    >)
        requires
            self@.numbered(),
            candidate.pivot_seq_2 <= confirm_seq,
        ensures
            out == settled_event(self@.minutes, *candidate, confirm_seq as int),
    {
        let first: DerivedMinute = match self.offset_of(candidate.pivot_seq_1) {
            Some(i) => self.minutes[i],
            None => {
                return None;
            },
        };
        let second: DerivedMinute = match self.offset_of(candidate.pivot_seq_2) {
            Some(i) => self.minutes[i],
            None => {
                return None;
            },
        };
        let confirm: DerivedMinute = match self.offset_of(confirm_seq) {
            Some(i) => self.minutes[i],
            None => {
                return None;
            },
        };
        Some(
            CachedEvent {
                required_start_ts: first.ts_bucket - 3 * MINUTE_US,
                event: event_of(
                    &first,
                    &second,
                    &confirm,
                    confirm_seq - candidate.pivot_seq_2,
                    candidate.direction < 0,
                ),
            },
        )
    }

    /// The events found so far, oldest first.
    pub fn events(&self) -> (out: Vec<ExhaustionEventData>)
        ensures
            out@ == self@.events.map_values(|entry: CachedEvent| entry.event),
    {
        let mut out: Vec<ExhaustionEventData> = Vec::new();
        let mut i: usize = 0;
        while i < self.events.len()
            invariant
                i <= self@.events.len(),
                out@ =~= self@.events.map_values(|entry: CachedEvent| entry.event).take(i as int),
            decreases self@.events.len() - i,
        {
            out.push(self.events[i].event);
            i += 1;
        }
        out
    }

    /// Carries the open candidates through the newest minute.
    fn update_pending(&mut self, current: DerivedMinute)
        requires
            old(self)@.numbered(),
            forall|i: int|
                0 <= i < old(self)@.pending.len() ==> (#[trigger] old(self)@.pending[i]).pivot_seq_2
                    + CONFIRM_BARS <= usize::MAX,
        ensures
            final(self)@ == (MachineState {
                pending: open_after(old(self)@.minutes, old(self)@.pending, current),
                events: old(self)@.events + settled_by(
                    old(self)@.minutes,
                    old(self)@.pending,
                    current,
                ),
                ..old(self)@
            }),
    {
        let mut retained: VecDeque<PendingCandidate> = VecDeque::new();
        let mut i: usize = 0;
        proof {
            assert(self.pending@.take(0) =~= Seq::empty());
        }
        while i < self.pending.len()
            invariant
                i <= self.pending@.len(),
                self@.numbered(),
                self@ == (MachineState { events: self@.events, ..old(self)@ }),
                forall|j: int|
                    0 <= j < self.pending@.len() ==> (#[trigger] self.pending@[j]).pivot_seq_2
                        + CONFIRM_BARS <= usize::MAX,
                retained@ =~= open_after(
                    old(self)@.minutes,
                    self.pending@.take(i as int),
                    current,
                ),
                self.events@ =~= old(self)@.events + settled_by(
                    old(self)@.minutes,
                    self.pending@.take(i as int),
                    current,
                ),
            decreases self.pending@.len() - i,
        {
            let candidate: PendingCandidate = self.pending[i];
            proof {
                assert(self.pending@.take(i + 1).drop_last() =~= self.pending@.take(i as int));
                assert(self.pending@.take(i + 1).last() == candidate);
            }
            i += 1;
            if current.seq <= candidate.pivot_seq_2 {
                retained.push_back(candidate);
                continue;
            }
            let pivot: DerivedMinute = match self.offset_of(candidate.pivot_seq_2) {
                Some(j) => self.minutes[j],
                None => {
                    continue;
                },
            };
            if is_confirmed(&pivot, &current, candidate.direction < 0) {
                if let Some(event) = self.build_event(&candidate, current.seq) {
                    self.events.push_back(event);
                }
                continue;
            }
            if current.seq < candidate.pivot_seq_2 + CONFIRM_BARS {
                retained.push_back(candidate);
            }
        }
        proof {
            assert(self.pending@.take(i as int) =~= old(self)@.pending);
        }
        self.pending = retained;
    }

    /// The extreme of the kept minute at `i`.
    fn extreme_at(&self, i: usize, high: bool) -> (out: Key)
        requires
            i < self@.minutes.len(),
        ensures
            out == extremes(self@.minutes, high)[i as int],
    {
        if high {
            self.minutes[i].high.at
        } else {
            self.minutes[i].low.at
        }
    }

    /// Whether the minute at `i` is a pivot.
    fn pivot_at(&self, i: usize, high: bool) -> (out: bool)
        requires
            PIVOT_LEFT <= i,
            i + PIVOT_RIGHT < self@.minutes.len(),
        ensures
            out == pivots::is_pivot(
                extremes(self@.minutes, high),
                i as int,
                PIVOT_LEFT as int,
                high,
            ),
    {
        let ghost values = extremes(self@.minutes, high);
        let n: usize = self.minutes.len();
        let pivot: Key = self.extreme_at(i, high);
        let mut j: usize = i - PIVOT_LEFT;
        while j < i
            invariant
                i - PIVOT_LEFT <= j <= i,
                n == self@.minutes.len(),
                i + PIVOT_RIGHT < n,
                values == extremes(self@.minutes, high),
                pivot == values[i as int],
                forall|a: int|
                    i - PIVOT_LEFT <= a < j ==> pivots::beyond(pivot, #[trigger] values[a], high),
            decreases i - j,
        {
            if !is_beyond(pivot, self.extreme_at(j, high), high) {
                return false;
            }
            j += 1;
        }
        j = i + 1;
        while j <= i + PIVOT_RIGHT
            invariant
                i + 1 <= j <= i + PIVOT_RIGHT + 1,
                n == self@.minutes.len(),
                i + PIVOT_RIGHT < n,
                values == extremes(self@.minutes, high),
                pivot == values[i as int],
                forall|a: int| i < a < j ==> !pivots::beyond(#[trigger] values[a], pivot, high),
            decreases i + PIVOT_RIGHT + 1 - j,
        {
            if is_beyond(self.extreme_at(j, high), pivot, high) {
                return false;
            }
            j += 1;
        }
        true
    }

    /// Opens a candidate where a new pivot makes one with the pivot before it.
    fn maybe_start_candidate(&mut self, previous: usize, pivot: DerivedMinute, high: bool)
        requires
            old(self)@.numbered(),
            clock::is_instant(pivot.ts_bucket),
        ensures
            final(self)@ == (MachineState {
                pending: match new_candidate(old(self)@.minutes, Some(previous), pivot, high) {
                    Some(candidate) => old(self)@.pending.push(candidate),
                    None => old(self)@.pending,
                },
                ..old(self)@
            }),
    {
        let first: DerivedMinute = match self.offset_of(previous) {
            Some(i) => self.minutes[i],
            None => {
                return;
            },
        };
        if is_candidate(&first, &pivot, high) {
            self.pending.push_back(
                PendingCandidate {
                    direction: if high {
                        -1
                    } else {
                        1
                    },
                    pivot_seq_1: previous,
                    pivot_seq_2: pivot.seq,
                },
            );
        }
    }

    /// Looks for a pivot that the newest minute completes.
    fn maybe_confirm_pivot(&mut self, high: bool)
        requires
            old(self)@.numbered(),
        ensures
            final(self)@ == old(self)@.pivot_checked(high),
    {
        let n: usize = self.minutes.len();
        if n < PIVOT_LEFT + 1 + PIVOT_RIGHT {
            return;
        }
        let i: usize = n - 1 - PIVOT_RIGHT;
        if !self.pivot_at(i, high) {
            return;
        }
        let pivot: DerivedMinute = self.minutes[i];
        let previous: Option<usize> = if high {
            self.last_high_pivot
        } else {
            self.last_low_pivot
        };
        if let Some(seq) = previous {
            self.maybe_start_candidate(seq, pivot, high);
        }
        if high {
            self.last_high_pivot = Some(pivot.seq);
        } else {
            self.last_low_pivot = Some(pivot.seq);
        }
    }

    /// Takes in one more pair of minutes.
    #[verifier::rlimit(50)]
    #[verifier::spinoff_prover]
    fn append_pair(&mut self, futures: &FuturesMinute, spot: &SpotMinute)
        requires
            old(self)@.well_formed(),
            old(self)@.next_seq + CONFIRM_BARS < usize::MAX,
            clock::is_instant(futures.ts_bucket),
        ensures
            final(self)@ == old(self)@.append(*futures, *spot),
            final(self)@.well_formed(),
    {
        let minute: DerivedMinute = derived(futures, spot, self.next_seq);
        self.next_seq += 1;
        self.minutes.push_back(minute);
        self.update_pending(minute);
        proof {
            lemma_open_after_subset(self@.minutes, old(self)@.pending, minute);
            assert(self@ =~= old(self)@.taken_in(minute));
        }
        self.maybe_confirm_pivot(true);
        self.maybe_confirm_pivot(false);
    }

    /// Forgets what reaches back before `first_ts`.
    fn prune_before(&mut self, first_ts: i64)
        requires
            old(self)@.well_formed(),
        ensures
            final(self)@ == old(self)@.pruned(first_ts),
            final(self)@.well_formed(),
    {
        while self.minutes.len() > 0 && self.minutes[0].ts_bucket < first_ts
            invariant
                history::drop_while(self.minutes@, starts_before(first_ts)) == history::drop_while(
                    old(self)@.minutes,
                    starts_before(first_ts),
                ),
                self@ == (MachineState { minutes: self@.minutes, ..old(self)@ }),
            decreases self.minutes@.len(),
        {
            let removed: Option<DerivedMinute> = self.minutes.pop_front();
        }
        let ghost minutes = history::drop_while(old(self)@.minutes, starts_before(first_ts));
        while self.events.len() > 0 && (self.events[0].required_start_ts < first_ts
            || self.events[0].event.start_ts < first_ts)
            invariant
                history::drop_while(self.events@, needs_before(first_ts)) == history::drop_while(
                    old(self)@.events,
                    needs_before(first_ts),
                ),
                self@ == (MachineState { minutes, events: self@.events, ..old(self)@ }),
            decreases self.events@.len(),
        {
            let removed: Option<CachedEvent> = self.events.pop_front();
        }
        let ghost gone = pivot_is_gone(minutes);
        proof {
            let k = history::lemma_drop_while(old(self)@.minutes, starts_before(first_ts));
            assert(self@.numbered());
        }
        while self.pending.len() > 0 && self.offset_of(self.pending[0].pivot_seq_1).is_none()
            invariant
                gone == pivot_is_gone(minutes),
                history::drop_while(self.pending@, gone) == history::drop_while(
                    old(self)@.pending,
                    gone,
                ),
                self@ == (MachineState {
                    minutes,
                    events: history::drop_while(old(self)@.events, needs_before(first_ts)),
                    pending: self@.pending,
                    ..old(self)@
                }),
                self@.numbered(),
            decreases self.pending@.len(),
        {
            let removed: Option<PendingCandidate> = self.pending.pop_front();
        }
        proof {
            let k = history::lemma_drop_while(old(self)@.pending, gone);
            assert forall|i: int| 0 <= i < self.pending@.len() implies (
            #[trigger] self.pending@[i]).pivot_seq_2 < self.next_seq by {
                assert(self.pending@[i] == old(self)@.pending[k + i]);
            }
        }
        if let Some(seq) = self.last_high_pivot {
            if self.offset_of(seq).is_none() {
                self.last_high_pivot = None;
            }
        }
        if let Some(seq) = self.last_low_pivot {
            if self.offset_of(seq).is_none() {
                self.last_low_pivot = None;
            }
        }
    }

    /// Takes in a run of pairs of minutes.
    fn append_all(&mut self, futures: &[FuturesMinute], spot: &[SpotMinute])
        requires
            futures@.len() == spot@.len(),
            old(self)@.well_formed(),
            old(self)@.next_seq + futures@.len() + CONFIRM_BARS <= usize::MAX,
            forall|i: int|
                0 <= i < futures@.len() ==> clock::is_instant(#[trigger] futures@[i].ts_bucket),
        ensures
            final(self)@ == old(self)@.replay(futures@, spot@),
            final(self)@.well_formed(),
    {
        let mut i: usize = 0;
        proof {
            assert(futures@.take(0) =~= Seq::empty());
        }
        while i < futures.len()
            invariant
                i <= futures@.len(),
                futures@.len() == spot@.len(),
                old(self)@.next_seq + futures@.len() + CONFIRM_BARS <= usize::MAX,
                self@.next_seq == old(self)@.next_seq + i,
                forall|j: int|
                    0 <= j < futures@.len() ==> clock::is_instant(#[trigger] futures@[j].ts_bucket),
                self@ == old(self)@.replay(futures@.take(i as int), spot@.take(i as int)),
                self@.well_formed(),
            decreases futures@.len() - i,
        {
            self.append_pair(&futures[i], &spot[i]);
            i += 1;
            proof {
                assert(futures@.take(i as int).drop_last() =~= futures@.take(i - 1));
                assert(spot@.take(i as int).drop_last() =~= spot@.take(i - 1));
            }
        }
        proof {
            assert(futures@.take(i as int) =~= futures@);
            assert(spot@.take(i as int) =~= spot@);
        }
    }

    /// Starts over with two histories.
    pub fn rebuild(&mut self, history_futures: &[FuturesMinute], history_spot: &[SpotMinute])
        requires
            history_futures@.len() + CONFIRM_BARS <= usize::MAX,
            forall|i: int|
                0 <= i < history_futures@.len() ==> clock::is_instant(
                    #[trigger] history_futures@[i].ts_bucket,
                ),
        ensures
            final(self)@ == MachineState::rebuilt(history_futures@, history_spot@),
            final(self)@.well_formed(),
    {
        *self = ExhaustionEventStateMachine::default();
        let (futures, spot) = aligned_event_histories(history_futures, history_spot);
        self.append_all(futures, spot);
        let n: usize = futures.len();
        self.last_ts = if n == 0 {
            None
        } else {
            Some(futures[n - 1].ts_bucket)
        };
        proof {
            assert(self@ =~= MachineState::rebuilt(history_futures@, history_spot@));
        }
    }

    /// Brings the machine up to two histories, taking in only their new minutes
    /// where it has seen the others.
    pub fn sync(&mut self, history_futures: &[FuturesMinute], history_spot: &[SpotMinute])
        requires
            old(self)@.well_formed(),
            old(self)@.next_seq + history_futures@.len() + CONFIRM_BARS <= usize::MAX,
            forall|i: int|
                0 <= i < history_futures@.len() ==> clock::is_instant(
                    #[trigger] history_futures@[i].ts_bucket,
                ),
        ensures
            final(self)@ == old(self)@.synced(history_futures@, history_spot@),
            final(self)@.well_formed(),
    {
        let (futures, spot) = aligned_event_histories(history_futures, history_spot);
        let n: usize = futures.len();
        if n == 0 {
            *self = ExhaustionEventStateMachine::default();
            return;
        }
        let first_ts: i64 = futures[0].ts_bucket;
        let last_ts: i64 = futures[n - 1].ts_bucket;
        let seen: i64 = match self.last_ts {
            Some(ts) => {
                if ts >= last_ts {
                    self.rebuild(futures, spot);
                    return;
                }
                ts
            },
            None => {
                self.rebuild(futures, spot);
                return;
            },
        };
        self.prune_before(first_ts);
        let start: usize = lower_bound(futures, seen + MINUTE_US);
        if start == 0 && self.minutes.len() == 0 {
            self.rebuild(futures, spot);
            return;
        }
        self.append_all(
            vstd::slice::slice_subrange(futures, start, n),
            vstd::slice::slice_subrange(spot, start, n),
        );
        self.last_ts = Some(last_ts);
        proof {
            assert(self@ =~= old(self)@.synced(history_futures@, history_spot@));
        }
    }
}

/// The candidates that stay open are some of those that were.
proof fn lemma_open_after_subset(
    minutes: Seq<DerivedMinute>,
    pending: Seq<PendingCandidate>,
    minute: DerivedMinute,
)
    ensures
        forall|i: int|
            0 <= i < open_after(minutes, pending, minute).len() ==> pending.contains(
                #[trigger] open_after(minutes, pending, minute)[i],
            ),
    decreases pending.len(),
{
    if pending.len() > 0 {
        let rest = pending.drop_last();
        lemma_open_after_subset(minutes, rest, minute);
        let before = open_after(minutes, rest, minute);
        let after = open_after(minutes, pending, minute);
        assert forall|i: int| 0 <= i < after.len() implies pending.contains(#[trigger] after[i]) by {
            if i < before.len() {
                assert(after[i] == before[i]);
                let j = choose|j: int| 0 <= j < rest.len() && rest[j] == before[i];
                assert(pending[j] == after[i]);
            } else {
                assert(pending[pending.len() - 1] == after[i]);
            }
        }
    }
}

/// Each minute starts at least a minute after the one before it.
pub open spec fn minute_steps(futures: Seq<FuturesMinute>) -> bool {
    forall|i: int, j: int|
        0 <= i <= j < futures.len() ==> (#[trigger] futures[j]).ts_bucket - (
        #[trigger] futures[i]).ts_bucket >= (j - i) * MINUTE_US
}

/// The candidates of one side.
pub open spec fn side_pending(pending: Seq<PendingCandidate>, high: bool) -> Seq<PendingCandidate>
    decreases pending.len(),
{
    if pending.len() == 0 {
        Seq::empty()
    } else {
        let rest = side_pending(pending.drop_last(), high);
        if (pending.last().direction < 0) == high {
            rest.push(pending.last())
        } else {
            rest
        }
    }
}

/// The events of one side.
pub open spec fn side_found(events: Seq<CachedEvent>, high: bool) -> Seq<ExhaustionEventData>
    decreases events.len(),
{
    if events.len() == 0 {
        Seq::empty()
    } else {
        let rest = side_found(events.drop_last(), high);
        if (events.last().event.direction < 0) == high {
            rest.push(events.last().event)
        } else {
            rest
        }
    }
}

proof fn lemma_side_pending_push(
    pending: Seq<PendingCandidate>,
    candidate: PendingCandidate,
    high: bool,
)
    ensures
        side_pending(pending.push(candidate), high) == if (candidate.direction < 0) == high {
            side_pending(pending, high).push(candidate)
        } else {
            side_pending(pending, high)
        },
{
    assert(pending.push(candidate).drop_last() =~= pending);
}

proof fn lemma_side_open(
    minutes: Seq<DerivedMinute>,
    pending: Seq<PendingCandidate>,
    minute: DerivedMinute,
    high: bool,
)
    ensures
        side_pending(open_after(minutes, pending, minute), high) == open_after(
            minutes,
            side_pending(pending, high),
            minute,
        ),
    decreases pending.len(),
{
    if pending.len() > 0 {
        let rest = pending.drop_last();
        let last = pending.last();
        lemma_side_open(minutes, rest, minute, high);
        lemma_side_pending_push(open_after(minutes, rest, minute), last, high);
        assert(side_pending(rest, high).push(last).drop_last() =~= side_pending(rest, high));
    }
}

proof fn lemma_side_found_add(a: Seq<CachedEvent>, b: Seq<CachedEvent>, high: bool)
    ensures
        side_found(a + b, high) == side_found(a, high) + side_found(b, high),
    decreases b.len(),
{
    if b.len() == 0 {
        assert(a + b =~= a);
    } else {
        lemma_side_found_add(a, b.drop_last(), high);
        assert((a + b).drop_last() =~= a + b.drop_last());
        assert((a + b).last() == b.last());
        assert(side_found(a + b, high) =~= side_found(a, high) + side_found(b, high));
    }
}

proof fn lemma_side_settled(
    minutes: Seq<DerivedMinute>,
    pending: Seq<PendingCandidate>,
    minute: DerivedMinute,
    high: bool,
)
    ensures
        side_found(settled_by(minutes, pending, minute), high) == side_found(
            settled_by(minutes, side_pending(pending, high), minute),
            high,
        ),
    decreases pending.len(),
{
    if pending.len() > 0 {
        let rest = pending.drop_last();
        let last = pending.last();
        lemma_side_settled(minutes, rest, minute, high);
        let before = settled_by(minutes, rest, minute);
        let side_before = settled_by(minutes, side_pending(rest, high), minute);
        assert(side_pending(rest, high).push(last).drop_last() =~= side_pending(rest, high));
        match settled_event(minutes, last, minute.seq as int) {
            Some(event) => {
                assert(before.push(event).drop_last() =~= before);
                assert(side_before.push(event).drop_last() =~= side_before);
                assert(event.event.direction == direction_of(last.direction < 0));
            },
            None => {},
        }
    }
}

/// The pivots of one side of a history.
pub open spec fn side_pivots(minutes: Seq<DerivedMinute>, high: bool) -> Seq<int> {
    pivots::all_pivots(extremes(minutes, high), PIVOT_LEFT as int, high)
}

/// The bar from which on the machine looks for a confirming close.
pub const MACHINE_DELAY: usize = 4;

/// The candidate of one side that is open at the end of a history, if any.
spec fn open_pair(minutes: Seq<DerivedMinute>, high: bool) -> Seq<PendingCandidate> {
    let listed = side_pivots(minutes, high);
    let n = minutes.len() as int;
    let t1 = listed[listed.len() - 2];
    let t2 = listed[listed.len() - 1];
    if listed.len() >= 2 && makes_candidate(minutes[t1], minutes[t2], high) && n - 1 < t2
        + CONFIRM_BARS && first_confirm(minutes, t2, t2 + MACHINE_DELAY, n - 1, high) is None {
        seq![
            PendingCandidate {
                direction: direction_of(high),
                pivot_seq_1: t1 as usize,
                pivot_seq_2: t2 as usize,
            },
        ]
    } else {
        Seq::empty()
    }
}

/// What the machine knows of one side after a whole history.
spec fn knows_side(state: MachineState, minutes: Seq<DerivedMinute>, high: bool) -> bool {
    let listed = side_pivots(minutes, high);
    &&& state.last_pivot(high) == if listed.len() == 0 {
        None::<usize>
    } else {
        Some(listed.last() as usize)
    }
    &&& side_pending(state.pending, high) == open_pair(minutes, high)
    &&& side_found(state.events, high) == side_events(minutes, MACHINE_DELAY as int, high)
}

/// The minutes are numbered from zero.
spec fn from_zero(minutes: Seq<DerivedMinute>) -> bool {
    forall|i: int| 0 <= i < minutes.len() ==> #[trigger] minutes[i].seq == i
}

/// What one more minute does to the pivots of a side.
proof fn lemma_pivots_step(minutes: Seq<DerivedMinute>, minute: DerivedMinute, high: bool)
    ensures
        ({
            let n = minutes.len() as int;
            let more = minutes.push(minute);
            let k = PIVOT_LEFT as int;
            side_pivots(more, high) == if pivots::is_pivot(
                extremes(more, high),
                n - k,
                k,
                high,
            ) {
                side_pivots(minutes, high).push(n - k)
            } else {
                side_pivots(minutes, high)
            }
        }),
{
    let v = extremes(minutes, high);
    assert(extremes(minutes.push(minute), high) =~= v.push(extreme(minute, high)));
    pivots::law_pivots_grow(v, extreme(minute, high), PIVOT_LEFT as int, high);
}

/// Where the pivots of a side lie.
proof fn lemma_pivot_places(minutes: Seq<DerivedMinute>, high: bool)
    ensures
        ({
            let listed = side_pivots(minutes, high);
            &&& forall|a: int|
                0 <= a < listed.len() ==> PIVOT_LEFT <= #[trigger] listed[a] < minutes.len()
                    - PIVOT_LEFT
            &&& forall|a: int, b: int|
                0 <= a < b < listed.len() ==> #[trigger] listed[a] + PIVOT_LEFT
                    < #[trigger] listed[b]
        }),
{
    let v = extremes(minutes, high);
    let k = PIVOT_LEFT as int;
    let listed = side_pivots(minutes, high);
    pivots::law_pivots_listed(v, v.len() as int, k, high);
    assert forall|a: int, b: int| 0 <= a < b < listed.len() implies #[trigger] listed[a]
        + PIVOT_LEFT < #[trigger] listed[b] by {
        pivots::law_pivots_apart(v, listed[a], listed[b], k, high);
    }
}

/// The search for a confirming close over one more bar.
proof fn lemma_first_confirm_step(
    minutes: Seq<DerivedMinute>,
    minute: DerivedMinute,
    pivot: int,
    from: int,
    high: bool,
)
    requires
        0 <= pivot < minutes.len(),
        0 <= from <= minutes.len(),
    ensures
        ({
            let n = minutes.len() as int;
            first_confirm(minutes.push(minute), pivot, from, n, high) == match first_confirm(
                minutes,
                pivot,
                from,
                n - 1,
                high,
            ) {
                Some(i) => Some(i),
                None => if confirms(minutes[pivot], minute, high) {
                    Some(n)
                } else {
                    None
                },
            }
        }),
    decreases minutes.len() - from,
{
    let n = minutes.len() as int;
    if from < n {
        lemma_first_confirm_step(minutes, minute, pivot, from + 1, high);
        assert(minutes.push(minute)[from] == minutes[from]);
    } else {
        assert(first_confirm(minutes.push(minute), pivot, n + 1, n, high) is None);
    }
}

/// A search that ends before the newest bar does not see it.
proof fn lemma_first_confirm_same(
    minutes: Seq<DerivedMinute>,
    minute: DerivedMinute,
    pivot: int,
    from: int,
    to: int,
    high: bool,
)
    requires
        0 <= pivot < minutes.len(),
        0 <= from,
        to < minutes.len(),
    ensures
        first_confirm(minutes.push(minute), pivot, from, to, high) == first_confirm(
            minutes,
            pivot,
            from,
            to,
            high,
        ),
        first_confirm(minutes, pivot, from, to, high) matches Some(i) ==> from <= i <= to,
    decreases to - from + 1,
{
    if from <= to {
        lemma_first_confirm_same(minutes, minute, pivot, from + 1, to, high);
    }
}

/// Pairs whose time to be confirmed is over are not touched by one more bar.
proof fn lemma_old_pairs(
    minutes: Seq<DerivedMinute>,
    minute: DerivedMinute,
    listed: Seq<int>,
    pairs: int,
    high: bool,
)
    requires
        pairs < listed.len(),
        forall|a: int| 0 <= a <= pairs ==> 0 <= #[trigger] listed[a],
        forall|a: int| 0 <= a <= pairs ==> #[trigger] listed[a] + CONFIRM_BARS < minutes.len(),
    ensures
        pair_events(
            minutes.push(minute),
            listed,
            pairs,
            MACHINE_DELAY as int,
            minutes.len() as int,
            high,
        ) == pair_events(
            minutes,
            listed,
            pairs,
            MACHINE_DELAY as int,
            minutes.len() - 1,
            high,
        ),
    decreases pairs,
{
    if pairs > 0 {
        lemma_old_pairs(minutes, minute, listed, pairs - 1, high);
        let t1 = listed[pairs - 1];
        let t2 = listed[pairs];
        lemma_first_confirm_same(
            minutes,
            minute,
            t2,
            t2 + MACHINE_DELAY,
            t2 + CONFIRM_BARS,
            high,
        );
    }
}

/// The last pair of a side after one more bar: it is confirmed by it exactly when
/// its candidate was open and the bar confirms.
proof fn lemma_last_pair(minutes: Seq<DerivedMinute>, minute: DerivedMinute, high: bool)
    requires
        from_zero(minutes),
        minutes.len() < usize::MAX,
    ensures
        ({
            let n = minutes.len() as int;
            let more = minutes.push(minute);
            let listed = side_pivots(minutes, high);
            let open = open_pair(minutes, high);
            let before = pair_events(
                minutes,
                listed,
                listed.len() - 1,
                MACHINE_DELAY as int,
                n - 1,
                high,
            );
            pair_events(more, listed, listed.len() - 1, MACHINE_DELAY as int, n, high)
                == if open.len() == 1 && confirms(
                minutes[open[0].pivot_seq_2 as int],
                minute,
                high,
            ) {
                let t1 = open[0].pivot_seq_1 as int;
                let t2 = open[0].pivot_seq_2 as int;
                before.push(confirmed_event(minutes[t1], minutes[t2], minute, n - t2, high))
            } else {
                before
            }
        }),
{
    let n = minutes.len() as int;
    let more = minutes.push(minute);
    let listed = side_pivots(minutes, high);
    let d = MACHINE_DELAY as int;
    lemma_pivot_places(minutes, high);
    if listed.len() >= 2 {
        let t1 = listed[listed.len() - 2];
        let t2 = listed[listed.len() - 1];
        let pairs = listed.len() - 1;
        assert forall|a: int| 0 <= a <= pairs - 1 implies #[trigger] listed[a] + CONFIRM_BARS
            < minutes.len() by {
            assert(listed[a] + PIVOT_LEFT < listed[pairs]);
        }
        lemma_old_pairs(minutes, minute, listed, pairs - 1, high);
        assert(more[t1] == minutes[t1]);
        assert(more[t2] == minutes[t2]);
        if t2 + CONFIRM_BARS <= n - 1 {
            lemma_first_confirm_same(minutes, minute, t2, t2 + d, t2 + CONFIRM_BARS, high);
            lemma_first_confirm_same(minutes, minute, t2, t2 + d, n - 1, high);
        } else {
            lemma_first_confirm_step(minutes, minute, t2, t2 + d, high);
            lemma_first_confirm_same(minutes, minute, t2, t2 + d, n - 1, high);
            assert(not_past(t2 + CONFIRM_BARS, n) == n);
            assert(not_past(t2 + CONFIRM_BARS, n - 1) == n - 1);
            match first_confirm(minutes, t2, t2 + d, n - 1, high) {
                Some(i) => {
                    assert(more[i] == minutes[i]);
                },
                None => {
                    assert(more[n] == minute);
                },
            }
        }
    }
}

/// Taking in one more bar settles the open candidate of a side as the pairs say.
proof fn lemma_take_in_side(state: MachineState, minute: DerivedMinute, high: bool)
    requires
        from_zero(state.minutes),
        state.minutes.len() < usize::MAX,
        minute.seq == state.minutes.len(),
        knows_side(state, state.minutes, high),
    ensures
        ({
            let n = state.minutes.len() as int;
            let after = state.taken_in(minute);
            let listed = side_pivots(state.minutes, high);
            &&& side_found(after.events, high) == pair_events(
                after.minutes,
                listed,
                listed.len() - 1,
                MACHINE_DELAY as int,
                n,
                high,
            )
            &&& side_pending(after.pending, high) == if open_pair(state.minutes, high).len() == 1
                && !confirms(
                state.minutes[open_pair(state.minutes, high)[0].pivot_seq_2 as int],
                minute,
                high,
            ) && n < open_pair(state.minutes, high)[0].pivot_seq_2 + CONFIRM_BARS {
                open_pair(state.minutes, high)
            } else {
                Seq::empty()
            }
        }),
{
    let minutes = state.minutes;
    let n = minutes.len() as int;
    let more = minutes.push(minute);
    let after = state.taken_in(minute);
    let open = open_pair(minutes, high);
    lemma_side_open(more, state.pending, minute, high);
    lemma_side_settled(more, state.pending, minute, high);
    lemma_side_found_add(state.events, settled_by(more, state.pending, minute), high);
    lemma_last_pair(minutes, minute, high);
    lemma_pivot_places(minutes, high);
    if open.len() == 1 {
        let c = open[0];
        let t1 = c.pivot_seq_1 as int;
        let t2 = c.pivot_seq_2 as int;
        assert(open.drop_last() =~= Seq::empty());
        assert(open.last() == c);
        assert(open_after(more, open.drop_last(), minute) =~= Seq::empty());
        assert(settled_by(more, open.drop_last(), minute) =~= Seq::empty());
        assert(more[0].seq == 0);
        assert(minute_of(more, t1) == Some(minutes[t1]));
        assert(minute_of(more, t2) == Some(minutes[t2]));
        assert(minute_of(more, n) == Some(minute));
        if confirms(minutes[t2], minute, high) {
            let event = settled_event(more, c, n)->0;
            let new = settled_by(more, open, minute);
            assert(new =~= seq![event]);
            assert(new.drop_last() =~= Seq::empty());
            assert(side_found(new.drop_last(), high) =~= Seq::empty());
            assert(side_found(new, high) =~= seq![event.event]);
            assert(side_found(state.events, high) + seq![event.event] =~= side_found(
                state.events,
                high,
            ).push(event.event));
        } else {
            assert(settled_by(more, open, minute) =~= Seq::empty());
            assert(side_found(state.events, high) + Seq::empty() =~= side_found(
                state.events,
                high,
            ));
            assert(open_after(more, open, minute) =~= if n < t2 + CONFIRM_BARS {
                open
            } else {
                Seq::empty()
            });
        }
    } else {
        assert(open =~= Seq::empty());
        assert(settled_by(more, open, minute) =~= Seq::empty());
        assert(open_after(more, open, minute) =~= Seq::empty());
        assert(side_found(state.events, high) + Seq::empty() =~= side_found(state.events, high));
    }
}

/// Looking for a pivot of a side completes what the machine knows of it.
proof fn lemma_check_side(state: MachineState, minute: DerivedMinute, high: bool)
    requires
        from_zero(state.minutes),
        state.minutes.len() < usize::MAX,
        minute.seq == state.minutes.len(),
        knows_side(state, state.minutes, high),
    ensures
        knows_side(
            state.taken_in(minute).pivot_checked(high),
            state.minutes.push(minute),
            high,
        ),
{
    let minutes = state.minutes;
    let n = minutes.len() as int;
    let k = PIVOT_LEFT as int;
    let more = minutes.push(minute);
    let taken = state.taken_in(minute);
    let after = taken.pivot_checked(high);
    let listed = side_pivots(minutes, high);
    let now = side_pivots(more, high);
    let open = open_pair(minutes, high);
    lemma_take_in_side(state, minute, high);
    lemma_pivots_step(minutes, minute, high);
    lemma_pivot_places(minutes, high);
    lemma_pivot_places(more, high);
    assert(taken.minutes == more);
    assert(more.len() - 1 - PIVOT_RIGHT == n - k);
    if listed.len() >= 2 {
        let t2 = listed[listed.len() - 1];
        lemma_first_confirm_step(minutes, minute, t2, t2 + MACHINE_DELAY, high);
    }
    if pivots::is_pivot(extremes(more, high), n - k, k, high) {
        let pivot = more[n - k];
        assert(now.last() == n - k);
        assert(now =~= listed.push(n - k));
        assert(pair_events(more, now, listed.len() - 1, MACHINE_DELAY as int, n, high)
            == pair_events(more, listed, listed.len() - 1, MACHINE_DELAY as int, n, high)) by {
            lemma_pairs_prefix(more, now, listed, listed.len() - 1, n, high);
        }
        if listed.len() >= 1 {
            let t1 = listed.last();
            assert(now[now.len() - 2] == t1);
            assert(now[now.len() - 2] + PIVOT_LEFT < now[now.len() - 1]);
            assert(open.len() == 0);
            assert(more[0].seq == 0);
            assert(minute_of(more, t1) == Some(more[t1]));
            assert(first_confirm(more, n - k, n - k + MACHINE_DELAY, n, high) is None);
            assert(pair_event(more, t1, n - k, MACHINE_DELAY as int, n, high) is None);
            let candidate = PendingCandidate {
                direction: direction_of(high),
                pivot_seq_1: t1 as usize,
                pivot_seq_2: (n - k) as usize,
            };
            lemma_side_pending_push(taken.pending, candidate, high);
            assert(Seq::<PendingCandidate>::empty().push(candidate) =~= seq![candidate]);
        }
    }
}

/// Pairs are made of the pivots up to them.
proof fn lemma_pairs_prefix(
    minutes: Seq<DerivedMinute>,
    a: Seq<int>,
    b: Seq<int>,
    pairs: int,
    last: int,
    high: bool,
)
    requires
        pairs < a.len(),
        pairs < b.len(),
        forall|i: int| 0 <= i <= pairs ==> #[trigger] a[i] == b[i],
    ensures
        pair_events(minutes, a, pairs, MACHINE_DELAY as int, last, high) == pair_events(
            minutes,
            b,
            pairs,
            MACHINE_DELAY as int,
            last,
            high,
        ),
    decreases pairs,
{
    if pairs > 0 {
        lemma_pairs_prefix(minutes, a, b, pairs - 1, last, high);
    }
}

/// Looking for a pivot of one side leaves the other as it is.
proof fn lemma_other_side(state: MachineState, high: bool)
    ensures
        ({
            let after = state.pivot_checked(high);
            &&& after.last_pivot(!high) == state.last_pivot(!high)
            &&& side_pending(after.pending, !high) == side_pending(state.pending, !high)
            &&& after.events == state.events
            &&& after.minutes == state.minutes
            &&& after.next_seq == state.next_seq
            &&& after.last_ts == state.last_ts
        }),
{
    let i = state.minutes.len() - 1 - PIVOT_RIGHT;
    match new_candidate(state.minutes, state.last_pivot(high), state.minutes[i], high) {
        Some(candidate) => {
            lemma_side_pending_push(state.pending, candidate, !high);
        },
        None => {},
    }
}

/// What a run of the machine from the start knows after a whole history.
proof fn lemma_knows_sides(futures: Seq<FuturesMinute>, spot: Seq<SpotMinute>)
    requires
        futures.len() == spot.len(),
        futures.len() < usize::MAX,
    ensures
        ({
            let state = fresh().replay(futures, spot);
            let minutes = derived_minutes(futures, spot);
            &&& state.minutes == minutes
            &&& state.next_seq == futures.len()
            &&& state.last_ts is None
            &&& from_zero(minutes)
            &&& knows_side(state, minutes, true)
            &&& knows_side(state, minutes, false)
        }),
    decreases futures.len(),
{
    let minutes = derived_minutes(futures, spot);
    if futures.len() == 0 {
        assert(minutes =~= Seq::empty());
        assert(extremes(minutes, true) =~= Seq::empty());
        assert(extremes(minutes, false) =~= Seq::empty());
    } else {
        let f = futures.drop_last();
        let s = spot.drop_last();
        let n = f.len() as int;
        lemma_knows_sides(f, s);
        let before = fresh().replay(f, s);
        let minute = derive_minute(futures.last(), spot.last(), n);
        assert(minutes =~= derived_minutes(f, s).push(minute));
        let taken = before.taken_in(minute);
        let highs = taken.pivot_checked(true);
        lemma_check_side(before, minute, true);
        lemma_check_side(before, minute, false);
        lemma_other_side(taken, true);
        lemma_other_side(highs, false);
        // the low side does not notice that the high side was checked first
        assert(highs.pivot_checked(false).last_low == taken.pivot_checked(false).last_low);
        lemma_low_after_high(taken);
    }
}

/// The low side is checked in the same way before and after the high side.
proof fn lemma_low_after_high(state: MachineState)
    ensures
        side_pending(state.pivot_checked(true).pivot_checked(false).pending, false) == side_pending(
            state.pivot_checked(false).pending,
            false,
        ),
        state.pivot_checked(true).pivot_checked(false).events == state.pivot_checked(false).events,
{
    let highs = state.pivot_checked(true);
    lemma_other_side(state, true);
    let i = state.minutes.len() - 1 - PIVOT_RIGHT;
    match new_candidate(state.minutes, state.last_low, state.minutes[i], false) {
        Some(candidate) => {
            lemma_side_pending_push(state.pending, candidate, false);
            lemma_side_pending_push(highs.pending, candidate, false);
        },
        None => {},
    }
}

/// Running the machine over two histories finds, on each side, for every pair of
/// neighbouring pivots that makes a candidate, the event confirmed by the first of
/// the two bars after the second pivot is known.
pub proof fn law_rebuild_finds_every_event(
    futures: Seq<FuturesMinute>,
    spot: Seq<SpotMinute>,
    high: bool,
)
    requires
        futures.len() < usize::MAX,
    ensures
        side_found(MachineState::rebuilt(futures, spot).events, high) == side_events(
            common_minutes(futures, spot),
            MACHINE_DELAY as int,
            high,
        ),
{
    let n = history::shorter(futures.len(), spot.len());
    lemma_knows_sides(history::tail(futures, n), history::tail(spot, n));
}

/// Whether no pair of neighbouring pivots of a side that makes a candidate is
/// confirmed before its second pivot is known.
pub open spec fn none_confirmed_early(minutes: Seq<DerivedMinute>, high: bool) -> bool {
    let listed = side_pivots(minutes, high);
    forall|p: int, d: int|
        1 <= p < listed.len() && 1 <= d <= PIVOT_RIGHT && makes_candidate(
            minutes[listed[p - 1]],
            minutes[#[trigger] listed[p]],
            high,
        ) ==> !confirms(minutes[listed[p]], #[trigger] minutes[listed[p] + d], high)
}

proof fn lemma_delay_does_not_matter(minutes: Seq<DerivedMinute>, pairs: int, high: bool)
    requires
        none_confirmed_early(minutes, high),
        pairs < side_pivots(minutes, high).len(),
    ensures
        ({
            let listed = side_pivots(minutes, high);
            let last = minutes.len() - 1;
            pair_events(minutes, listed, pairs, 1, last, high) == pair_events(
                minutes,
                listed,
                pairs,
                MACHINE_DELAY as int,
                last,
                high,
            )
        }),
    decreases pairs,
{
    if pairs > 0 {
        lemma_delay_does_not_matter(minutes, pairs - 1, high);
        lemma_pivot_places(minutes, high);
        let listed = side_pivots(minutes, high);
        let t1 = listed[pairs - 1];
        let t2 = listed[pairs];
        let end = not_past(t2 + CONFIRM_BARS, minutes.len() - 1);
        if makes_candidate(minutes[t1], minutes[t2], high) {
            assert(!confirms(minutes[t2], minutes[t2 + 1], high));
            assert(!confirms(minutes[t2], minutes[t2 + 2], high));
            assert(!confirms(minutes[t2], minutes[t2 + 3], high));
            assert(first_confirm(minutes, t2, t2 + 1, end, high) == first_confirm(
                minutes,
                t2,
                t2 + 2,
                end,
                high,
            ));
            assert(first_confirm(minutes, t2, t2 + 2, end, high) == first_confirm(
                minutes,
                t2,
                t2 + 3,
                end,
                high,
            ));
            assert(first_confirm(minutes, t2, t2 + 3, end, high) == first_confirm(
                minutes,
                t2,
                t2 + 4,
                end,
                high,
            ));
        }
    }
}

/// The machine and the single pass find the same events on a side where no candidate
/// is confirmed before its second pivot is known. In histories too short for the
/// single pass the machine must find none.
pub proof fn law_rebuild_matches_direct(
    futures: Seq<FuturesMinute>,
    spot: Seq<SpotMinute>,
    high: bool,
)
    requires
        futures.len() < usize::MAX,
        ({
            let minutes = common_minutes(futures, spot);
            if minutes.len() < MIN_HISTORY_MINUTES {
                side_events(minutes, MACHINE_DELAY as int, high).len() == 0
            } else {
                none_confirmed_early(minutes, high)
            }
        }),
    ensures
        side_found(MachineState::rebuilt(futures, spot).events, high) == direct_events(
            futures,
            spot,
            high,
        ),
{
    law_rebuild_finds_every_event(futures, spot, high);
    let minutes = common_minutes(futures, spot);
    let listed = side_pivots(minutes, high);
    if minutes.len() >= MIN_HISTORY_MINUTES {
        lemma_delay_does_not_matter(minutes, listed.len() - 1, high);
    }
}

/// Whether no event of exhausted buying comes after one of exhausted selling.
pub open spec fn buying_comes_first(events: Seq<CachedEvent>) -> bool {
    forall|i: int, j: int|
        #![trigger events[i], events[j]]
        0 <= i < j < events.len() && events[j].event.direction < 0 ==> events[i].event.direction < 0
}

/// Events without what the machine keeps beside them.
pub open spec fn bare_events(entries: Seq<CachedEvent>) -> Seq<ExhaustionEventData> {
    entries.map_values(|entry: CachedEvent| entry.event)
}

proof fn lemma_no_selling(events: Seq<CachedEvent>)
    requires
        forall|i: int| 0 <= i < events.len() ==> (#[trigger] events[i]).event.direction < 0,
    ensures
        side_found(events, false) == Seq::<ExhaustionEventData>::empty(),
    decreases events.len(),
{
    if events.len() > 0 {
        assert(events[events.len() - 1].event.direction < 0);
        lemma_no_selling(events.drop_last());
    }
}

proof fn lemma_sides_in_order(events: Seq<CachedEvent>)
    requires
        buying_comes_first(events),
    ensures
        bare_events(events) == side_found(events, true) + side_found(events, false),
    decreases events.len(),
{
    if events.len() > 0 {
        let rest = events.drop_last();
        assert(buying_comes_first(rest)) by {
            assert forall|i: int, j: int|
                #![trigger rest[i], rest[j]]
                0 <= i < j < rest.len() && rest[j].event.direction
                    < 0 implies rest[i].event.direction < 0 by {
                assert(rest[i] == events[i] && rest[j] == events[j]);
            }
        }
        lemma_sides_in_order(rest);
        if events.last().event.direction < 0 {
            assert forall|i: int| 0 <= i < rest.len() implies (
            #[trigger] rest[i]).event.direction < 0 by {
                assert(rest[i] == events[i]);
                assert(events[events.len() - 1].event.direction < 0);
            }
            lemma_no_selling(rest);
        }
        assert(bare_events(events) =~= bare_events(rest).push(events.last().event));
        assert(bare_events(events) =~= side_found(events, true) + side_found(events, false));
    } else {
        assert(bare_events(events) =~= side_found(events, true) + side_found(events, false));
    }
}

/// Where moreover the machine finds no exhausted buying after exhausted selling, it
/// finds the events of the single pass in their order: the single pass lists
/// exhausted buying first.
pub proof fn law_rebuild_matches_direct_in_order(
    futures: Seq<FuturesMinute>,
    spot: Seq<SpotMinute>,
)
    requires
        futures.len() < usize::MAX,
        ({
            let minutes = common_minutes(futures, spot);
            if minutes.len() < MIN_HISTORY_MINUTES {
                &&& side_events(minutes, MACHINE_DELAY as int, true).len() == 0
                &&& side_events(minutes, MACHINE_DELAY as int, false).len() == 0
            } else {
                none_confirmed_early(minutes, true) && none_confirmed_early(minutes, false)
            }
        }),
        buying_comes_first(MachineState::rebuilt(futures, spot).events),
    ensures
        bare_events(MachineState::rebuilt(futures, spot).events) == all_events(futures, spot),
{
    law_rebuild_matches_direct(futures, spot, true);
    law_rebuild_matches_direct(futures, spot, false);
    lemma_sides_in_order(MachineState::rebuilt(futures, spot).events);
}

/// What a machine that started with a history holds on to lies within it.
spec fn anchored(state: MachineState, futures: Seq<FuturesMinute>) -> bool {
    let n = futures.len() as int;
    &&& forall|i: int|
        0 <= i < state.pending.len() ==> PIVOT_LEFT <= (#[trigger] state.pending[i]).pivot_seq_1 < n
    &&& state.last_high matches Some(seq) ==> PIVOT_LEFT <= seq < n
    &&& state.last_low matches Some(seq) ==> PIVOT_LEFT <= seq < n
    &&& forall|i: int|
        0 <= i < state.events.len() ==> {
            &&& (#[trigger] state.events[i]).required_start_ts >= futures[0].ts_bucket
            &&& state.events[i].event.start_ts >= futures[0].ts_bucket
        }
}

proof fn lemma_settled_anchored(
    minutes: Seq<DerivedMinute>,
    pending: Seq<PendingCandidate>,
    minute: DerivedMinute,
    first_ts: i64,
)
    requires
        from_zero(minutes),
        forall|i: int| 0 <= i < minutes.len() ==> clock::is_instant(#[trigger] minutes[i].ts_bucket),
        forall|i: int|
            0 <= i < minutes.len() ==> #[trigger] minutes[i].ts_bucket >= first_ts + i * MINUTE_US,
        forall|i: int|
            0 <= i < pending.len() ==> PIVOT_LEFT <= (#[trigger] pending[i]).pivot_seq_1,
    ensures
        forall|i: int|
            0 <= i < settled_by(minutes, pending, minute).len() ==> {
                &&& (#[trigger] settled_by(minutes, pending, minute)[i]).required_start_ts
                    >= first_ts
                &&& settled_by(minutes, pending, minute)[i].event.start_ts >= first_ts
            },
    decreases pending.len(),
{
    if pending.len() > 0 {
        let rest = pending.drop_last();
        lemma_settled_anchored(minutes, rest, minute, first_ts);
        let before = settled_by(minutes, rest, minute);
        let after = settled_by(minutes, pending, minute);
        assert forall|i: int| 0 <= i < after.len() implies {
            &&& (#[trigger] after[i]).required_start_ts >= first_ts
            &&& after[i].event.start_ts >= first_ts
        } by {
            if i < before.len() {
                assert(after[i] == before[i]);
            } else {
                let p = pending.last().pivot_seq_1 as int;
                assert(minutes[0].seq == 0);
                assert(minutes[p].ts_bucket >= first_ts + p * MINUTE_US);
            }
        }
    }
}

#[verifier::rlimit(50)]
#[verifier::spinoff_prover]
proof fn lemma_anchored(futures: Seq<FuturesMinute>, spot: Seq<SpotMinute>)
    requires
        futures.len() == spot.len(),
        futures.len() < usize::MAX,
        minute_steps(futures),
        forall|i: int| 0 <= i < futures.len() ==> clock::is_instant(#[trigger] futures[i].ts_bucket),
    ensures
        anchored(fresh().replay(futures, spot), futures),
    decreases futures.len(),
{
    if futures.len() > 0 {
        let f = futures.drop_last();
        let s = spot.drop_last();
        assert(minute_steps(f)) by {
            assert forall|i: int, j: int| 0 <= i <= j < f.len() implies (
            #[trigger] f[j]).ts_bucket - (#[trigger] f[i]).ts_bucket >= (j - i) * MINUTE_US by {
                assert(f[i] == futures[i] && f[j] == futures[j]);
            }
        }
        assert forall|i: int| 0 <= i < f.len() implies clock::is_instant(
            #[trigger] f[i].ts_bucket,
        ) by {
            assert(f[i] == futures[i]);
        }
        lemma_anchored(f, s);
        lemma_knows_sides(f, s);
        lemma_knows_sides(futures, spot);
        let before = fresh().replay(f, s);
        let n = f.len() as int;
        let minute = derive_minute(futures.last(), spot.last(), n);
        let minutes = before.minutes.push(minute);
        assert(minutes =~= derived_minutes(futures, spot));
        let first_ts = futures[0].ts_bucket;
        assert forall|i: int| 0 <= i < minutes.len() implies #[trigger] minutes[i].ts_bucket
            >= first_ts + i * MINUTE_US by {
            assert(futures[i].ts_bucket - futures[0].ts_bucket >= (i - 0) * MINUTE_US);
        }
        lemma_settled_anchored(minutes, before.pending, minute, first_ts);
        lemma_open_after_subset(minutes, before.pending, minute);
        let taken = before.taken_in(minute);
        if n > 0 {
            assert(f[0] == futures[0]);
        }
        assert(anchored(taken, futures)) by {
            let new = settled_by(minutes, before.pending, minute);
            assert forall|i: int| 0 <= i < taken.events.len() implies {
                &&& (#[trigger] taken.events[i]).required_start_ts >= first_ts
                &&& taken.events[i].event.start_ts >= first_ts
            } by {
                if i < before.events.len() {
                    assert(taken.events[i] == before.events[i]);
                } else {
                    assert(taken.events[i] == new[i - before.events.len()]);
                }
            }
        }
        lemma_check_anchored(taken, futures, true);
        lemma_check_anchored(taken.pivot_checked(true), futures, false);
    }
}

proof fn lemma_check_anchored(state: MachineState, futures: Seq<FuturesMinute>, high: bool)
    requires
        anchored(state, futures),
        from_zero(state.minutes),
        state.minutes.len() == futures.len(),
    ensures
        anchored(state.pivot_checked(high), futures),
{
}

/// Taking in two runs one after the other is taking in the whole run.
#[verifier::rlimit(50)]
#[verifier::spinoff_prover]
proof fn lemma_replay_split(
    state: MachineState,
    futures: Seq<FuturesMinute>,
    spot: Seq<SpotMinute>,
    k: int,
)
    requires
        futures.len() == spot.len(),
        0 <= k <= futures.len(),
    ensures
        ({
            let n = futures.len() as int;
            state.replay(futures, spot) == state.replay(futures.take(k), spot.take(k)).replay(
                futures.subrange(k, n),
                spot.subrange(k, n),
            )
        }),
    decreases futures.len(),
{
    let n = futures.len() as int;
    if k == n {
        assert(futures.take(k) =~= futures);
        assert(spot.take(k) =~= spot);
    } else {
        lemma_replay_split(state, futures.drop_last(), spot.drop_last(), k);
        assert(futures.drop_last().take(k) =~= futures.take(k));
        assert(spot.drop_last().take(k) =~= spot.take(k));
        assert(futures.drop_last().subrange(k, n - 1) =~= futures.subrange(k, n).drop_last());
        assert(spot.drop_last().subrange(k, n - 1) =~= spot.subrange(k, n).drop_last());
    }
}

/// Which minute the machine takes for its newest does not matter to what it takes in.
proof fn lemma_replay_ending(
    state: MachineState,
    last_ts: Option<i64>,
    futures: Seq<FuturesMinute>,
    spot: Seq<SpotMinute>,
)
    requires
        futures.len() == spot.len(),
    ensures
        state.ending_at(last_ts).replay(futures, spot) == state.replay(futures, spot).ending_at(
            last_ts,
        ),
    decreases futures.len(),
{
    if futures.len() > 0 {
        lemma_replay_ending(state, last_ts, futures.drop_last(), spot.drop_last());
    }
}

/// The names under which an event tells how the balance of trading and its relative size
/// changed between its pivots: as drops where buying was exhausted, as lifts where selling
/// was.
pub fn change_names(direction: i16) -> (out: (&'static str, &'static str))
    ensures
        direction < 0 ==> out.0@ == "delta_drop"@ && out.1@ == "rdelta_drop"@,
        direction >= 0 ==> out.0@ == "delta_lift"@ && out.1@ == "rdelta_lift"@,
{
    if direction < 0 {
        ("delta_drop", "rdelta_drop")
    } else {
        ("delta_lift", "rdelta_lift")
    }
}

/// Bringing a machine that has seen the beginning of two histories up to the whole
/// of them leaves it as a run over the whole does.
#[verifier::rlimit(50)]
#[verifier::spinoff_prover]
pub proof fn law_sync_continues(futures: Seq<FuturesMinute>, spot: Seq<SpotMinute>, k: int)
    requires
        futures.len() == spot.len(),
        0 <= k < futures.len() < usize::MAX,
        minute_steps(futures),
        forall|i: int| 0 <= i < futures.len() ==> clock::is_instant(#[trigger] futures[i].ts_bucket),
    ensures
        MachineState::rebuilt(futures.take(k), spot.take(k)).synced(futures, spot)
            == MachineState::rebuilt(futures, spot),
{
    let n = futures.len() as int;
    let f = futures.take(k);
    let s = spot.take(k);
    assert(history::tail(futures, n) =~= futures);
    assert(history::tail(spot, n) =~= spot);
    assert(history::tail(f, k) =~= f);
    assert(history::tail(s, k) =~= s);
    let before = MachineState::rebuilt(f, s);
    if k > 0 {
        let seen = futures[k - 1].ts_bucket;
        let first_ts = futures[0].ts_bucket;
        assert(before.last_ts == Some(seen));
        assert(futures[n - 1].ts_bucket - futures[k - 1].ts_bucket >= (n - k) * MINUTE_US);
        assert(minute_steps(f)) by {
            assert forall|i: int, j: int| 0 <= i <= j < f.len() implies (
            #[trigger] f[j]).ts_bucket - (#[trigger] f[i]).ts_bucket >= (j - i) * MINUTE_US by {
                assert(f[i] == futures[i] && f[j] == futures[j]);
            }
        }
        assert forall|i: int| 0 <= i < f.len() implies clock::is_instant(
            #[trigger] f[i].ts_bucket,
        ) by {
            assert(f[i] == futures[i]);
        }
        lemma_anchored(f, s);
        lemma_knows_sides(f, s);
        let plain = fresh().replay(f, s);
        assert(f[0] == futures[0]);
        assert(plain.minutes[0].ts_bucket == first_ts);
        assert(!starts_before(first_ts)(before.minutes[0]));
        assert(history::drop_while(before.minutes, starts_before(first_ts)) == before.minutes);
        if before.events.len() > 0 {
            assert(plain.events[0].required_start_ts >= first_ts);
            assert(!needs_before(first_ts)(before.events[0]));
        }
        assert(before.minutes[0].seq == 0);
        if before.pending.len() > 0 {
            assert(plain.pending[0].pivot_seq_1 < k);
            assert(!pivot_is_gone(before.minutes)(before.pending[0]));
        }
        assert(before.pruned(first_ts) =~= before);
        let ts = history::stamps(futures);
        assert forall|i: int, j: int| 0 <= i <= j < ts.len() implies ts[i] <= ts[j] by {
            assert(futures[j].ts_bucket - futures[i].ts_bucket >= (j - i) * MINUTE_US);
        }
        assert forall|i: int| 0 <= i < k implies #[trigger] ts[i] < seen + MINUTE_US by {
            assert(futures[k - 1].ts_bucket - futures[i].ts_bucket >= (k - 1 - i) * MINUTE_US);
        }
        assert forall|i: int| k <= i < n implies #[trigger] ts[i] >= seen + MINUTE_US by {
            assert(futures[i].ts_bucket - futures[k - 1].ts_bucket >= (i - (k - 1)) * MINUTE_US);
        }
        history::lemma_first_at_or_after_is(ts, (seen + MINUTE_US) as i64, k);
        lemma_replay_split(fresh(), futures, spot, k);
        lemma_replay_ending(plain, Some(seen), futures.subrange(k, n), spot.subrange(k, n));
    }
}

impl Confirmed for ExhaustionEventData {
    open spec fn known_at(&self) -> i64 {
        self.confirm_ts
    }

    fn known_ts(&self) -> (out: i64) {
        self.confirm_ts
    }
}

/// The events of exhausted selling, or those of exhausted buying.
pub open spec fn side_of(all_events: Seq<ExhaustionEventData>, selling: bool) -> Seq<
    ExhaustionEventData,
> {
    all_events.filter(|event: ExhaustionEventData| (event.direction >= 0) == selling)
}

/// The events of exhausted selling, or those of exhausted buying.
pub fn events_of_side(all_events: &[ExhaustionEventData], selling: bool) -> (out: Vec<
    ExhaustionEventData,
>)
    ensures
        out@ == side_of(all_events@, selling),
{
    let mut out: Vec<ExhaustionEventData> = Vec::new();
    let mut i: usize = 0;
    proof {
        reveal(Seq::filter);
    }
    while i < all_events.len()
        invariant
            i <= all_events@.len(),
            out@ == side_of(all_events@.take(i as int), selling),
        decreases all_events@.len() - i,
    {
        proof {
            reveal(Seq::filter);
            assert(all_events@.take(i + 1).drop_last() =~= all_events@.take(i as int));
            assert(all_events@.take(i + 1).last() == all_events@[i as int]);
        }
        if (all_events[i].direction >= 0) == selling {
            out.push(all_events[i]);
        }
        i += 1;
    }
    proof {
        assert(all_events@.take(i as int) =~= all_events@);
    }
    out
}

/// The buying exhaustion indicator.
pub struct I12BuyingExhaustion;

impl I12BuyingExhaustion {
    /// The code of the indicator.
    pub fn code(&self) -> (out: &'static str)
        ensures
            out@ == "buying_exhaustion"@,
    {
        "buying_exhaustion"
    }

    /// The report of the minute that starts at `ts_bucket`, given all events of either
    /// side and the lengths of the histories they were found in.
    pub fn evaluate(
        &self,
        ts_bucket: i64,
        all_events: &[ExhaustionEventData],
        futures_minutes: usize,
        spot_minutes: usize,
    ) -> (out: EventReport<ExhaustionEventData>)
        requires
            clock::is_instant(ts_bucket),
        ensures
            out.listed@ == side_of(all_events@, false),
            out.rows@ == events::known_with(side_of(all_events@, false), ts_bucket),
            out.covered_minutes == events::covered(futures_minutes, spot_minutes),
    {
        let side: Vec<ExhaustionEventData> = events_of_side(all_events, false);
        report_current(&side, ts_bucket, futures_minutes, spot_minutes)
    }
}

/// The selling exhaustion indicator.
pub struct I13SellingExhaustion;

impl I13SellingExhaustion {
    /// The code of the indicator.
    pub fn code(&self) -> (out: &'static str)
        ensures
            out@ == "selling_exhaustion"@,
    {
        "selling_exhaustion"
    }

    /// The report of the minute that starts at `ts_bucket`, given all events of either
    /// side and the lengths of the histories they were found in.
    pub fn evaluate(
        &self,
        ts_bucket: i64,
        all_events: &[ExhaustionEventData],
        futures_minutes: usize,
        spot_minutes: usize,
    ) -> (out: EventReport<ExhaustionEventData>)
        requires
            clock::is_instant(ts_bucket),
        ensures
            out.listed@ == side_of(all_events@, true),
            out.rows@ == events::known_with(side_of(all_events@, true), ts_bucket),
            out.covered_minutes == events::covered(futures_minutes, spot_minutes),
    {
        let side: Vec<ExhaustionEventData> = events_of_side(all_events, true);
        report_current(&side, ts_bucket, futures_minutes, spot_minutes)
    }
}

/// A fresh machine after it has been brought up to longer and longer beginnings of two
/// histories, of the given lengths.
pub open spec fn brought_up(
    futures: Seq<FuturesMinute>,
    spot: Seq<SpotMinute>,
    lengths: Seq<int>,
) -> MachineState
    decreases lengths.len(),
{
    if lengths.len() == 0 {
        fresh()
    } else {
        brought_up(futures, spot, lengths.drop_last()).synced(
            futures.take(lengths.last()),
            spot.take(lengths.last()),
        )
    }
}

/// A machine that is brought up to longer and longer beginnings of two histories, minute by
/// minute or in larger steps, always stands where a run over what it has seen would.
pub proof fn law_synced_step_by_step(
    futures: Seq<FuturesMinute>,
    spot: Seq<SpotMinute>,
    lengths: Seq<int>,
)
    requires
        futures.len() == spot.len(),
        futures.len() < usize::MAX,
        minute_steps(futures),
        forall|i: int| 0 <= i < futures.len() ==> clock::is_instant(#[trigger] futures[i].ts_bucket),
        lengths.len() > 0,
        forall|i: int| 0 <= i < lengths.len() ==> 0 < #[trigger] lengths[i] <= futures.len(),
        forall|i: int, j: int| 0 <= i < j < lengths.len() ==> lengths[i] < lengths[j],
    ensures
        brought_up(futures, spot, lengths) == MachineState::rebuilt(
            futures.take(lengths.last()),
            spot.take(lengths.last()),
        ),
    decreases lengths.len(),
{
    let n = lengths.last();
    let f = futures.take(n);
    let s = spot.take(n);
    let rest = lengths.drop_last();
    assert(minute_steps(f)) by {
        assert forall|i: int, j: int| 0 <= i <= j < f.len() implies (#[trigger] f[j]).ts_bucket - (
        #[trigger] f[i]).ts_bucket >= (j - i) * MINUTE_US by {
            assert(f[i] == futures[i] && f[j] == futures[j]);
        }
    }
    assert forall|i: int| 0 <= i < f.len() implies clock::is_instant(#[trigger] f[i].ts_bucket) by {
        assert(f[i] == futures[i]);
    }
    if rest.len() == 0 {
        assert(brought_up(futures, spot, rest) == fresh());
        assert(history::tail(f, n) =~= f);
        assert(history::tail(s, n) =~= s);
    } else {
        let k = rest.last();
        assert(k == lengths[lengths.len() - 2]);
        law_synced_step_by_step(futures, spot, rest);
        assert(f.take(k) =~= futures.take(k));
        assert(s.take(k) =~= spot.take(k));
        law_sync_continues(f, s, k);
    }
}

/// Whether a minute stands out: its high above the highs of the three minutes before it and
/// at or above those of the three after it, or its low below and at or below theirs.
pub open spec fn stands_out(minutes: Seq<DerivedMinute>, i: int, high: bool) -> bool {
    &&& 3 <= i < minutes.len() - 3
    &&& forall|d: int|
        1 <= d <= 3 ==> if high {
            (#[trigger] minutes[i - d]).high.at < minutes[i].high.at
        } else {
            minutes[i - d].low.at > minutes[i].low.at
        }
    &&& forall|d: int|
        1 <= d <= 3 ==> if high {
            (#[trigger] minutes[i + d]).high.at <= minutes[i].high.at
        } else {
            minutes[i + d].low.at >= minutes[i].low.at
        }
}

/// Whether two minutes are neighbouring pivots of a side.
pub open spec fn are_neighbours(minutes: Seq<DerivedMinute>, a: int, b: int, high: bool) -> bool {
    &&& a < b
    &&& stands_out(minutes, a, high)
    &&& stands_out(minutes, b, high)
    &&& forall|i: int| a < i < b ==> !#[trigger] stands_out(minutes, i, high)
}

/// Whether a push is exhausted. Its two minutes lie 3 to 180 whole minutes apart. Buying is
/// exhausted where the second high lies two ticks or more above the first one while delta and
/// relative delta lie below those of the first by their tolerances or more; selling where the
/// second low lies two ticks or more below the first one while delta and relative delta lie
/// above those of the first by as much. The second minute closes at least 0.65 of its range
/// away from its extreme.
pub open spec fn is_exhausted(first: DerivedMinute, second: DerivedMinute, buying: bool) -> bool {
    &&& 180_000_000 <= second.ts_bucket - first.ts_bucket < 10_860_000_000
    &&& if buying {
        &&& first.high.up_two <= second.high.at
        &&& second.delta.at <= first.delta.less
        &&& second.rdelta.at <= first.rdelta.less
        &&& ETA_REJECT <= second.reject_top
    } else {
        &&& second.low.at <= first.low.down_two
        &&& first.delta.more <= second.delta.at
        &&& first.rdelta.more <= second.rdelta.at
        &&& ETA_REJECT <= second.reject_bottom
    }
}

/// Whether a minute closes two ticks or more through the far side of the bar of a pivot:
/// below its low where buying was exhausted, above its high where selling was.
pub open spec fn closes_through(pivot: DerivedMinute, minute: DerivedMinute, buying: bool) -> bool {
    if buying {
        minute.close.at <= pivot.low.down_two
    } else {
        pivot.high.up_two <= minute.close.at
    }
}

/// Whether an exhausted push between two neighbouring pivots is confirmed by a minute: the
/// first, from `delay` to 5 minutes after the second pivot, that closes through it.
pub open spec fn is_confirmed_push(
    minutes: Seq<DerivedMinute>,
    a: int,
    b: int,
    c: int,
    delay: int,
    buying: bool,
) -> bool {
    &&& are_neighbours(minutes, a, b, buying)
    &&& is_exhausted(minutes[a], minutes[b], buying)
    &&& b + delay <= c <= b + 5 && c < minutes.len()
    &&& closes_through(minutes[b], minutes[c], buying)
    &&& forall|i: int|
        b + delay <= i < c ==> !closes_through(minutes[b], #[trigger] minutes[i], buying)
}

/// Whether an event tells of a confirmed push.
pub open spec fn tells_of(
    e: ExhaustionEventData,
    minutes: Seq<DerivedMinute>,
    a: int,
    b: int,
    c: int,
    buying: bool,
) -> bool {
    &&& e.direction == if buying {
        -1int
    } else {
        1
    }
    &&& e.start_ts == minutes[a].ts_bucket && e.pivot_ts_1 == minutes[a].ts_bucket
    &&& e.pivot_ts_2 == minutes[b].ts_bucket
    &&& e.end_ts == minutes[c].ts_bucket + 60_000_000
    &&& e.confirm_ts == minutes[c].ts_bucket + 60_000_000
    &&& e.pivot_confirm_ts_1 == minutes[a].ts_bucket + 180_000_000
    &&& e.pivot_confirm_ts_2 == minutes[b].ts_bucket + 180_000_000
    &&& buying ==> e.pivot_price == minutes[b].high.at && e.reject_ratio == minutes[b].reject_top
    &&& !buying ==> e.pivot_price == minutes[b].low.at && e.reject_ratio
        == minutes[b].reject_bottom
    &&& e.confirm_bars == c - b
}

/// Whether an event is that of a confirmed push.
pub open spec fn is_exhaustion(
    e: ExhaustionEventData,
    minutes: Seq<DerivedMinute>,
    a: int,
    b: int,
    c: int,
    delay: int,
    buying: bool,
) -> bool {
    is_confirmed_push(minutes, a, b, c, delay, buying) && tells_of(e, minutes, a, b, c, buying)
}

/// Whether an event is that of a confirmed push of buying where its direction is below zero,
/// else of selling.
pub open spec fn is_exhaustion_by_direction(
    e: ExhaustionEventData,
    minutes: Seq<DerivedMinute>,
    a: int,
    b: int,
    c: int,
) -> bool {
    is_exhaustion(e, minutes, a, b, c, 1, e.direction < 0)
}

proof fn lemma_stands_out(minutes: Seq<DerivedMinute>, i: int, high: bool)
    ensures
        stands_out(minutes, i, high) <==> pivots::is_pivot(extremes(minutes, high), i, 3, high),
{
    let values = extremes(minutes, high);
    if stands_out(minutes, i, high) {
        assert forall|j: int| i - 3 <= j < i implies pivots::beyond(
            values[i],
            #[trigger] values[j],
            high,
        ) by {
            assert(minutes[i - (i - j)] == minutes[j]);
        }
        assert forall|j: int| i < j <= i + 3 implies !pivots::beyond(
            #[trigger] values[j],
            values[i],
            high,
        ) by {
            assert(minutes[i + (j - i)] == minutes[j]);
        }
    }
    if pivots::is_pivot(values, i, 3, high) {
        assert forall|d: int| 1 <= d <= 3 implies if high {
            (#[trigger] minutes[i - d]).high.at < minutes[i].high.at
        } else {
            minutes[i - d].low.at > minutes[i].low.at
        } by {
            assert(pivots::beyond(values[i], values[i - d], high));
        }
        assert forall|d: int| 1 <= d <= 3 implies if high {
            (#[trigger] minutes[i + d]).high.at <= minutes[i].high.at
        } else {
            minutes[i + d].low.at >= minutes[i].low.at
        } by {
            assert(!pivots::beyond(values[i + d], values[i], high));
        }
    }
}

proof fn lemma_neighbours_are_listed(minutes: Seq<DerivedMinute>, a: int, b: int, high: bool) -> (p:
    int)
    requires
        are_neighbours(minutes, a, b, high),
    ensures
        1 <= p < side_pivots(minutes, high).len(),
        side_pivots(minutes, high)[p - 1] == a,
        side_pivots(minutes, high)[p] == b,
{
    let values = extremes(minutes, high);
    let listed = side_pivots(minutes, high);
    pivots::law_pivots_listed(values, minutes.len() as int, 3, high);
    lemma_stands_out(minutes, a, high);
    lemma_stands_out(minutes, b, high);
    assert(listed.contains(a) && listed.contains(b));
    let q = choose|q: int| 0 <= q < listed.len() && listed[q] == a;
    let p = choose|p: int| 0 <= p < listed.len() && listed[p] == b;
    if p < q {
        assert(listed[p] < listed[q]);
    } else if q + 1 < p {
        let i = listed[q + 1];
        assert(listed[q] < listed[q + 1] && listed[q + 1] < listed[p]);
        lemma_stands_out(minutes, i, high);
        assert(pivots::is_pivot(values, listed[q + 1], 3, high));
        assert(!stands_out(minutes, i, high));
    }
    p
}

proof fn lemma_listed_are_neighbours(minutes: Seq<DerivedMinute>, p: int, high: bool)
    requires
        1 <= p < side_pivots(minutes, high).len(),
    ensures
        are_neighbours(
            minutes,
            side_pivots(minutes, high)[p - 1],
            side_pivots(minutes, high)[p],
            high,
        ),
{
    let values = extremes(minutes, high);
    let listed = side_pivots(minutes, high);
    pivots::law_pivots_listed(values, minutes.len() as int, 3, high);
    let a = listed[p - 1];
    let b = listed[p];
    assert(pivots::is_pivot(values, a, 3, high) && pivots::is_pivot(values, b, 3, high));
    lemma_stands_out(minutes, a, high);
    lemma_stands_out(minutes, b, high);
    assert(a < b);
    assert forall|i: int| a < i < b implies !#[trigger] stands_out(minutes, i, high) by {
        lemma_stands_out(minutes, i, high);
        if pivots::is_pivot(values, i, 3, high) {
            assert(listed.contains(i));
            let q = choose|q: int| 0 <= q < listed.len() && listed[q] == i;
            if q < p - 1 {
                assert(listed[q] < listed[p - 1]);
            }
            if p < q {
                assert(listed[p] < listed[q]);
            }
        }
    }
}

proof fn lemma_first_confirm_found(
    minutes: Seq<DerivedMinute>,
    b: int,
    from: int,
    to: int,
    high: bool,
)
    ensures
        first_confirm(minutes, b, from, to, high) matches Some(c) ==> from <= c <= to
            && closes_through(minutes[b], minutes[c], high) && forall|i: int|
            from <= i < c ==> !closes_through(minutes[b], #[trigger] minutes[i], high),
        first_confirm(minutes, b, from, to, high) is None ==> forall|i: int|
            from <= i <= to ==> !closes_through(minutes[b], #[trigger] minutes[i], high),
    decreases to - from + 1,
{
    if from <= to {
        lemma_first_confirm_found(minutes, b, from + 1, to, high);
    }
}

/// Two minutes make a candidate exactly where the push between them is exhausted.
pub proof fn law_candidates_are_exhausted(first: DerivedMinute, second: DerivedMinute, high: bool)
    ensures
        makes_candidate(first, second, high) <==> is_exhausted(first, second, high),
{
    let span = second.ts_bucket - first.ts_bucket;
    assert(3 <= clock::whole_minutes(span) <= 180 <==> 180_000_000 <= span < 10_860_000_000);
}

/// Every event of a side is that of a push between two neighbouring pivots that is exhausted
/// and confirmed no sooner than `delay` minutes after the second one.
pub proof fn law_side_events_are_exhaustions(
    minutes: Seq<DerivedMinute>,
    delay: int,
    high: bool,
    k: int,
)
    requires
        minutes.len() < usize::MAX,
        1 <= delay,
        forall|i: int|
            0 <= i < minutes.len() ==> clock::is_instant((#[trigger] minutes[i]).ts_bucket),
        0 <= k < side_events(minutes, delay, high).len(),
    ensures
        exists|a: int, b: int, c: int| #[trigger]
            is_exhaustion(side_events(minutes, delay, high)[k], minutes, a, b, c, delay, high),
{
    lemma_pair_events_sound(
        minutes,
        side_pivots(minutes, high).len() - 1,
        delay,
        high,
        k,
    );
}

proof fn lemma_pair_events_sound(
    minutes: Seq<DerivedMinute>,
    pairs: int,
    delay: int,
    high: bool,
    k: int,
)
    requires
        minutes.len() < usize::MAX,
        1 <= delay,
        forall|i: int|
            0 <= i < minutes.len() ==> clock::is_instant((#[trigger] minutes[i]).ts_bucket),
        pairs < side_pivots(minutes, high).len(),
        0 <= k < pair_events(
            minutes,
            side_pivots(minutes, high),
            pairs,
            delay,
            minutes.len() - 1,
            high,
        ).len(),
    ensures
        exists|a: int, b: int, c: int| #[trigger]
            is_exhaustion(
                pair_events(
                    minutes,
                    side_pivots(minutes, high),
                    pairs,
                    delay,
                    minutes.len() - 1,
                    high,
                )[k],
                minutes,
                a,
                b,
                c,
                delay,
                high,
            ),
    decreases pairs,
{
    let listed = side_pivots(minutes, high);
    let last = minutes.len() - 1;
    let rest = pair_events(minutes, listed, pairs - 1, delay, last, high);
    let all = pair_events(minutes, listed, pairs, delay, last, high);
    if k < rest.len() {
        lemma_pair_events_sound(minutes, pairs - 1, delay, high, k);
        assert(all[k] == rest[k]);
    } else {
        let a = listed[pairs - 1];
        let b = listed[pairs];
        let to = not_past(b + CONFIRM_BARS, last);
        lemma_listed_are_neighbours(minutes, pairs, high);
        law_candidates_are_exhausted(minutes[a], minutes[b], high);
        lemma_first_confirm_found(minutes, b, b + delay, to, high);
        let c = first_confirm(minutes, b, b + delay, to, high)->0;
        assert(clock::is_instant(minutes[a].ts_bucket));
        assert(clock::is_instant(minutes[b].ts_bucket));
        assert(clock::is_instant(minutes[c].ts_bucket));
        assert(is_exhaustion(all[k], minutes, a, b, c, delay, high));
    }
}

/// Every push between two neighbouring pivots that is exhausted and confirmed has its event.
pub proof fn law_every_exhaustion_is_a_side_event(
    minutes: Seq<DerivedMinute>,
    delay: int,
    high: bool,
    a: int,
    b: int,
    c: int,
)
    requires
        minutes.len() < usize::MAX,
        1 <= delay,
        forall|i: int|
            0 <= i < minutes.len() ==> clock::is_instant((#[trigger] minutes[i]).ts_bucket),
        is_confirmed_push(minutes, a, b, c, delay, high),
    ensures
        exists|k: int|
            0 <= k < side_events(minutes, delay, high).len() && tells_of(
                #[trigger] side_events(minutes, delay, high)[k],
                minutes,
                a,
                b,
                c,
                high,
            ),
{
    let p = lemma_neighbours_are_listed(minutes, a, b, high);
    lemma_pair_events_complete(
        minutes,
        side_pivots(minutes, high).len() - 1,
        delay,
        high,
        a,
        b,
        c,
        p,
    );
    let listed = side_pivots(minutes, high);
    let all = pair_events(minutes, listed, listed.len() - 1, delay, minutes.len() - 1, high);
    let k = choose|k: int|
        0 <= k < all.len() && tells_of(#[trigger] all[k], minutes, a, b, c, high);
    assert(side_events(minutes, delay, high) == all);
    assert(tells_of(side_events(minutes, delay, high)[k], minutes, a, b, c, high));
}

proof fn lemma_pair_events_complete(
    minutes: Seq<DerivedMinute>,
    pairs: int,
    delay: int,
    high: bool,
    a: int,
    b: int,
    c: int,
    p: int,
)
    requires
        minutes.len() < usize::MAX,
        1 <= delay,
        forall|i: int|
            0 <= i < minutes.len() ==> clock::is_instant((#[trigger] minutes[i]).ts_bucket),
        is_confirmed_push(minutes, a, b, c, delay, high),
        1 <= p <= pairs < side_pivots(minutes, high).len(),
        side_pivots(minutes, high)[p - 1] == a,
        side_pivots(minutes, high)[p] == b,
    ensures
        exists|k: int|
            0 <= k < pair_events(
                minutes,
                side_pivots(minutes, high),
                pairs,
                delay,
                minutes.len() - 1,
                high,
            ).len() && tells_of(
                #[trigger] pair_events(
                    minutes,
                    side_pivots(minutes, high),
                    pairs,
                    delay,
                    minutes.len() - 1,
                    high,
                )[k],
                minutes,
                a,
                b,
                c,
                high,
            ),
    decreases pairs,
{
    let listed = side_pivots(minutes, high);
    let last = minutes.len() - 1;
    let rest = pair_events(minutes, listed, pairs - 1, delay, last, high);
    let all = pair_events(minutes, listed, pairs, delay, last, high);
    if p < pairs {
        lemma_pair_events_complete(minutes, pairs - 1, delay, high, a, b, c, p);
        let k = choose|k: int|
            0 <= k < rest.len() && tells_of(#[trigger] rest[k], minutes, a, b, c, high);
        assert(all[k] == rest[k]);
    } else {
        let to = not_past(b + CONFIRM_BARS, last);
        law_candidates_are_exhausted(minutes[a], minutes[b], high);
        lemma_first_confirm_found(minutes, b, b + delay, to, high);
        match first_confirm(minutes, b, b + delay, to, high) {
            Some(found) => {
                if found < c {
                    assert(!closes_through(minutes[b], minutes[found], high));
                }
                if c < found {
                    assert(!closes_through(minutes[b], minutes[c], high));
                }
            },
            None => {
                assert(!closes_through(minutes[b], minutes[c], high));
            },
        }
        assert(clock::is_instant(minutes[a].ts_bucket));
        assert(clock::is_instant(minutes[b].ts_bucket));
        assert(clock::is_instant(minutes[c].ts_bucket));
        assert(tells_of(all[all.len() - 1], minutes, a, b, c, high));
    }
}

proof fn lemma_stamps_are_instants(futures: Seq<FuturesMinute>, spot: Seq<SpotMinute>)
    requires
        forall|i: int|
            0 <= i < futures.len() ==> clock::is_instant((#[trigger] futures[i]).ts_bucket),
    ensures
        forall|i: int|
            0 <= i < common_minutes(futures, spot).len() ==> clock::is_instant(
                (#[trigger] common_minutes(futures, spot)[i]).ts_bucket,
            ),
{
    let n = history::shorter(futures.len(), spot.len());
    assert forall|i: int|
        0 <= i < common_minutes(futures, spot).len() implies clock::is_instant(
        (#[trigger] common_minutes(futures, spot)[i]).ts_bucket,
    ) by {
        assert(history::tail(futures, n)[i] == futures[futures.len() - n + i]);
    }
}

/// Every event of a whole history is that of an exhausted push: of buying between two high
/// pivots where its direction is -1, of selling between two low pivots where it is 1. A
/// history of fewer than 14 minutes has none.
pub proof fn law_every_event_is_an_exhaustion(
    futures: Seq<FuturesMinute>,
    spot: Seq<SpotMinute>,
    k: int,
)
    requires
        futures.len() < usize::MAX,
        forall|i: int|
            0 <= i < futures.len() ==> clock::is_instant((#[trigger] futures[i]).ts_bucket),
        0 <= k < all_events(futures, spot).len(),
    ensures
        common_minutes(futures, spot).len() >= 14,
        exists|a: int, b: int, c: int| #[trigger]
            is_exhaustion_by_direction(
                all_events(futures, spot)[k],
                common_minutes(futures, spot),
                a,
                b,
                c,
            ),
{
    let minutes = common_minutes(futures, spot);
    let e = all_events(futures, spot)[k];
    lemma_stamps_are_instants(futures, spot);
    let buying = direct_events(futures, spot, true);
    if k < buying.len() {
        law_side_events_are_exhaustions(minutes, 1, true, k);
        let (a, b, c) = choose|a: int, b: int, c: int| #[trigger]
            is_exhaustion(e, minutes, a, b, c, 1, true);
        assert(is_exhaustion_by_direction(e, minutes, a, b, c));
    } else {
        law_side_events_are_exhaustions(minutes, 1, false, k - buying.len());
        let (a, b, c) = choose|a: int, b: int, c: int| #[trigger]
            is_exhaustion(e, minutes, a, b, c, 1, false);
        assert(is_exhaustion_by_direction(e, minutes, a, b, c));
    }
}

/// Over a whole history of at least 14 minutes every exhausted push that is confirmed has its
/// event.
pub proof fn law_every_exhaustion_is_found(
    futures: Seq<FuturesMinute>,
    spot: Seq<SpotMinute>,
    buying: bool,
    a: int,
    b: int,
    c: int,
)
    requires
        futures.len() < usize::MAX,
        forall|i: int|
            0 <= i < futures.len() ==> clock::is_instant((#[trigger] futures[i]).ts_bucket),
        common_minutes(futures, spot).len() >= 14,
        is_confirmed_push(common_minutes(futures, spot), a, b, c, 1, buying),
    ensures
        exists|k: int|
            0 <= k < all_events(futures, spot).len() && tells_of(
                #[trigger] all_events(futures, spot)[k],
                common_minutes(futures, spot),
                a,
                b,
                c,
                buying,
            ),
{
    let minutes = common_minutes(futures, spot);
    lemma_stamps_are_instants(futures, spot);
    law_every_exhaustion_is_a_side_event(minutes, 1, buying, a, b, c);
    let side = direct_events(futures, spot, buying);
    let highs = direct_events(futures, spot, true);
    let all = all_events(futures, spot);
    let k = choose|k: int|
        0 <= k < side.len() && tells_of(#[trigger] side[k], minutes, a, b, c, buying);
    if buying {
        assert(all[k] == side[k]);
    } else {
        assert(all[highs.len() + k] == side[k]);
    }
}

/// The machine finds on each side the same exhausted pushes, those that are confirmed once
/// the second pivot is known: by the fourth or fifth minute after it.
pub proof fn law_machine_finds_exhaustions(
    futures: Seq<FuturesMinute>,
    spot: Seq<SpotMinute>,
    buying: bool,
    k: int,
)
    requires
        futures.len() < usize::MAX,
        forall|i: int|
            0 <= i < futures.len() ==> clock::is_instant((#[trigger] futures[i]).ts_bucket),
        0 <= k < side_found(MachineState::rebuilt(futures, spot).events, buying).len(),
    ensures
        exists|a: int, b: int, c: int| #[trigger]
            is_exhaustion(
                side_found(MachineState::rebuilt(futures, spot).events, buying)[k],
                common_minutes(futures, spot),
                a,
                b,
                c,
                4,
                buying,
            ),
{
    lemma_stamps_are_instants(futures, spot);
    law_rebuild_finds_every_event(futures, spot, buying);
    law_side_events_are_exhaustions(common_minutes(futures, spot), 4, buying, k);
}

/// The minutes that the rules see are those of the common end of both histories, with the
/// prices and the flow of futures as they are given.
pub proof fn law_minutes_as_seen(futures: Seq<FuturesMinute>, spot: Seq<SpotMinute>, i: int)
    requires
        0 <= i < futures.len(),
        i < spot.len(),
    ensures
        ({
            let n = if futures.len() < spot.len() {
                futures.len()
            } else {
                spot.len()
            };
            let seen = common_minutes(futures, spot);
            let m = seen[i];
            let f = futures[futures.len() - n + i];
            &&& seen.len() == n
            &&& m.ts_bucket == f.ts_bucket
            &&& m.high == f.quote.spec_high() && m.low == f.quote.spec_low()
            &&& m.close == f.quote.spec_close()
            &&& m.delta == f.delta && m.rdelta == f.rdelta
            &&& m.reject_top == f.reject_top && m.reject_bottom == f.reject_bottom
            &&& m.spot == spot[spot.len() - n + i]
        }),
{
    let n = history::shorter(futures.len(), spot.len());
    assert(history::tail(futures, n)[i] == futures[futures.len() - n + i]);
    assert(history::tail(spot, n)[i] == spot[spot.len() - n + i]);
}

/// The thresholds of the rules: a rejection of 0.65 and a spot flow of a hundred thousand.
pub proof fn law_thresholds()
    ensures
        order::is_nearest(ETA_REJECT, 65, 100),
        order::is_nearest(THETA_WHALE, 100_000, 1),
{
    order::lemma_powers_of_two();
}

} // verus!
