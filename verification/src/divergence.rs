//! Divergence: price and cumulative delta disagree between two pivots.
//!
//! Two neighbouring pivots of one kind make a leg. A leg is measured (how far
//! price went, how far the standardised cumulative deltas went, how likely chance
//! explains that) and judged by the rules here. Legs are found in one pass over a
//! history or minute by minute by [`DivergenceEventStateMachine`].

use std::collections::VecDeque;
use vstd::prelude::*;

use crate::clock;
use crate::clock::{minutes_between, MINUTE_US};
use crate::history;
use crate::history::{aligned_event_histories, lower_bound, Stamped};
use crate::order;
use crate::order::{half_key, no_less, no_more, order_key, sign_of, Key, Quote, KEY_INFINITY};
use crate::pivots;
use crate::pivots::{is_beyond, list_pivots};
use crate::text::same_text;

verus! {

/// Bars on either side that a pivot has to stand out from.
pub const PIVOT_K: usize = 3;

/// Least whole minutes of a leg.
pub const MIN_LEG_GAP_MINUTES: i64 = 3;

/// Most whole minutes of a leg.
pub const MAX_LEG_GAP_MINUTES: i64 = 180;

/// Minutes over which the trend of the price is taken out.
pub const DETREND_LEN_PRICE: usize = 60;

/// Minutes over which the trend of cumulative delta is taken out.
pub const DETREND_LEN_CVD: usize = 120;

/// Minutes over which cumulative delta is standardised.
pub const ROBUST_Z_LOOKBACK: usize = 120;

/// Minutes over which the true range is averaged.
pub const ATR_LOOKBACK: usize = 60;

/// The fewest minutes in which a history is looked at.
pub const MIN_HISTORY_MINUTES: usize = 125;

/// Minutes before the second pivot that its standardised values depend on.
pub const REQUIRED_MINUTES: i64 = 238;

/// Minutes of history that the newest events depend on.
pub const DIVERGENCE_INCREMENTAL_LOOKBACK_MINUTES: i64 = 608;

/// The key of 0.5, the least efficiency of a leg and the least change of
/// standardised cumulative delta.
pub const KEY_HALF: i64 = 0x3FE0_0000_0000_0000;

/// The key of 1.
pub const KEY_ONE: i64 = 0x3FF0_0000_0000_0000;

/// The key of the smallest amount that counts.
pub const KEY_EPS: i64 = 0x3D71_9799_812D_EA11;

/// The key of 0.6.
pub const KEY_SPOT_LED: i64 = 0x3FE3_3333_3333_3333;

/// The key of 0.3.
pub const KEY_FUTURES_LED: i64 = 0x3FD3_3333_3333_3333;

/// How a leg is tested for significance.
#[derive(Clone, Copy, Debug, PartialEq, Eq, Structural)]
pub enum DivergenceSigTestMode {
    /// By the size of its effects.
    Threshold,
    /// By resampling.
    BlockBootstrap,
}

/// The kinds of divergence.
#[derive(Clone, Copy, Debug, PartialEq, Eq, Structural)]
pub enum DivergenceKind {
    /// Higher high, lower delta.
    Bearish,
    /// Lower high, higher delta.
    HiddenBearish,
    /// Lower low, higher delta.
    Bullish,
    /// Higher low, lower delta.
    HiddenBullish,
}

/// Who moved the price over a leg.
#[derive(Clone, Copy, Debug, PartialEq, Eq, Structural)]
pub enum Driver {
    /// Spot trading.
    SpotLed,
    /// Futures trading.
    FuturesLed,
    /// Neither alone.
    Mixed,
}

/// What a minute of futures trading contributes.
#[derive(Clone, Copy, Debug, PartialEq, Eq)]
pub struct FuturesMinute {
    /// Start of the minute.
    pub ts_bucket: i64,
    /// Prices of the minute.
    pub quote: Quote,
    /// Cumulative delta.
    pub cvd: Key,
    /// Close without the trend of the `DETREND_LEN_PRICE` minutes that end here.
    pub detrended_price: Key,
    /// Standardised cumulative delta, where it can be told.
    pub z_cvd: Option<Key>,
    /// True range averaged over the `ATR_LOOKBACK` minutes that end here.
    pub atr: Key,
}

/// What a minute of spot trading contributes.
#[derive(Clone, Copy, Debug, PartialEq, Eq)]
pub struct SpotMinute {
    /// Start of the minute.
    pub ts_bucket: i64,
    /// Cumulative delta.
    pub cvd: Key,
    /// Standardised cumulative delta, where it can be told.
    pub z_cvd: Option<Key>,
}

/// A minute as the rules see it.
#[derive(Clone, Copy, Debug, PartialEq, Eq)]
pub struct DerivedMinute {
    /// Running number of the minute.
    pub seq: usize,
    /// Start of the minute.
    pub ts_bucket: i64,
    /// Close.
    pub close: Key,
    /// High.
    pub high: Key,
    /// Low.
    pub low: Key,
    /// Cumulative delta of futures.
    pub cvd_fut: Key,
    /// Cumulative delta of spot.
    pub cvd_spot: Key,
    /// Close without its trend, once enough minutes were seen.
    pub detrended_price: Option<Key>,
    /// Standardised cumulative delta of futures, once enough minutes were seen.
    pub z_cvd_fut: Option<Key>,
    /// Standardised cumulative delta of spot, once enough minutes were seen.
    pub z_cvd_spot: Option<Key>,
    /// Average true range, once enough minutes were seen.
    pub atr: Option<Key>,
}

/// Two neighbouring pivots of one kind.
#[derive(Clone, Copy, Debug, PartialEq, Eq)]
pub struct Leg {
    /// Whether the pivots are highs.
    pub high: bool,
    /// Place of the first pivot among the minutes at hand.
    pub idx_1: usize,
    /// Place of the second pivot among the minutes at hand.
    pub idx_2: usize,
    /// The minute of the first pivot.
    pub first: DerivedMinute,
    /// The minute of the second pivot.
    pub second: DerivedMinute,
}

/// What is measured of a leg.
#[derive(Clone, Copy, Debug, PartialEq, Eq)]
pub struct LegMeasure {
    /// Distance of the closes in average true ranges.
    pub leg_eff: Key,
    /// Change of the pivot price, by its bit pattern.
    pub price_diff: u64,
    /// Change of the pivot price in average true ranges.
    pub price_effect_z: Key,
    /// Change of standardised cumulative delta of futures, by its bit pattern.
    pub cvd_diff_fut: u64,
    /// Change of standardised cumulative delta of spot, by its bit pattern.
    pub cvd_diff_spot: u64,
    /// The sizes of the two changes of cumulative delta added up.
    pub flow_size: Key,
    /// The share of spot in that sum.
    pub spot_share: Key,
    /// How likely chance explains the change of price, where it was resampled.
    pub p_value_price: Option<Key>,
    /// How likely chance explains the change of delta, where it was resampled.
    pub p_value_cvd: Option<Key>,
}

/// What the rules say of a leg that diverges.
#[derive(Clone, Copy, Debug, PartialEq, Eq)]
pub struct Verdict {
    /// The kind of divergence.
    pub kind: DivergenceKind,
    /// Whole minutes between the pivots.
    pub leg_minutes: i64,
    /// How likely chance explains the change of price.
    pub p_value_price: Key,
    /// How likely chance explains the change of delta.
    pub p_value_cvd: Key,
    /// Whether spot flow went with the price.
    pub spot_price_flow_confirm: bool,
    /// 1 where futures flow went with the price, -1 where against it.
    pub fut_divergence_sign: i16,
    /// How far spot led, zero where it did not.
    pub spot_lead_score: Key,
    /// Who moved the price.
    pub likely_driver: Driver,
}

/// A divergence.
#[derive(Clone, Copy, Debug, PartialEq, Eq)]
pub struct DivergenceEventData {
    /// The kind of divergence.
    pub divergence_type: DivergenceKind,
    /// Whether the pivots are highs.
    pub pivot_side_high: bool,
    /// Start of the first pivot's minute.
    pub event_start_ts: i64,
    /// End of the second pivot's minute.
    pub event_end_ts: i64,
    /// When the event is known.
    pub event_available_ts: i64,
    /// Start of the first pivot's minute.
    pub pivot_ts_1: i64,
    /// Start of the second pivot's minute.
    pub pivot_ts_2: i64,
    /// Start of the minute that confirmed the first pivot.
    pub pivot_confirm_ts_1: i64,
    /// Start of the minute that confirmed the second pivot.
    pub pivot_confirm_ts_2: i64,
    /// Price of the first pivot.
    pub price_start: Key,
    /// Price of the second pivot.
    pub price_end: Key,
    /// Cumulative delta of futures at the first pivot.
    pub cvd_start_fut: Key,
    /// Cumulative delta of futures at the second pivot.
    pub cvd_end_fut: Key,
    /// Cumulative delta of spot at the first pivot.
    pub cvd_start_spot: Key,
    /// Cumulative delta of spot at the second pivot.
    pub cvd_end_spot: Key,
    /// What was measured.
    pub measure: LegMeasure,
    /// What the rules say.
    pub verdict: Verdict,
}

/// An event with the first instant that its history has to reach back to.
#[derive(Clone, Copy, Debug, PartialEq, Eq)]
pub struct CachedEvent {
    /// Start of the history that the event depends on.
    pub required_start_ts: i64,
    /// The event.
    pub event: DivergenceEventData,
}

/// A leg that diverges, by the places of its minutes in a history.
#[derive(Clone, Copy, Debug, PartialEq, Eq)]
pub struct DivergenceCandidate {
    /// Place of the first pivot.
    pub i1: usize,
    /// Place of the second pivot.
    pub i2: usize,
    /// Place of the minute that confirmed the first pivot.
    pub confirm_i1: usize,
    /// Place of the minute that confirmed the second pivot.
    pub confirm_i2: usize,
    /// Place of the minute from which on the candidate is known.
    pub available_i: usize,
    /// The leg.
    pub leg: Leg,
    /// What was measured.
    pub measure: LegMeasure,
    /// What the rules say.
    pub verdict: Verdict,
}

impl Stamped for FuturesMinute {
    open spec fn at(&self) -> i64 {
        self.ts_bucket
    }

    fn ts(&self) -> (out: i64) {
        self.ts_bucket
    }
}

impl DivergenceKind {
    /// The short name of the kind.
    pub open spec fn spec_name(self) -> Seq<char> {
        match self {
            DivergenceKind::Bearish => "bearish"@,
            DivergenceKind::HiddenBearish => "hidden_bearish"@,
            DivergenceKind::Bullish => "bullish"@,
            DivergenceKind::HiddenBullish => "hidden_bullish"@,
        }
    }

    /// The short name of the kind.
    pub fn name(self) -> (out: &'static str)
        ensures
            out@ == self.spec_name(),
    {
        match self {
            DivergenceKind::Bearish => "bearish",
            DivergenceKind::HiddenBearish => "hidden_bearish",
            DivergenceKind::Bullish => "bullish",
            DivergenceKind::HiddenBullish => "hidden_bullish",
        }
    }

    /// -1 for the bearish kinds, 1 for the bullish ones.
    pub open spec fn spec_direction(self) -> int {
        if self is Bearish || self is HiddenBearish {
            -1
        } else {
            1
        }
    }

    /// -1 for the bearish kinds, 1 for the bullish ones.
    pub fn direction(self) -> (out: i16)
        ensures
            out == self.spec_direction(),
    {
        match self {
            DivergenceKind::Bearish => -1,
            DivergenceKind::HiddenBearish => -1,
            DivergenceKind::Bullish => 1,
            DivergenceKind::HiddenBullish => 1,
        }
    }
}

/// The full name of a kind by its short one.
pub open spec fn label_of(kind: Seq<char>) -> Seq<char> {
    if kind == "bearish"@ {
        "bearish_divergence"@
    } else if kind == "hidden_bearish"@ {
        "hidden_bearish_divergence"@
    } else if kind == "bullish"@ {
        "bullish_divergence"@
    } else if kind == "hidden_bullish"@ {
        "hidden_bullish_divergence"@
    } else {
        "unknown"@
    }
}

/// The full name of a kind by its short one; `unknown` for any other text.
pub fn divergence_label(kind: &str) -> (out: &'static str)
    ensures
        out@ == label_of(kind@),
{
    if same_text(kind, "bearish") {
        "bearish_divergence"
    } else if same_text(kind, "hidden_bearish") {
        "hidden_bearish_divergence"
    } else if same_text(kind, "bullish") {
        "bullish_divergence"
    } else if same_text(kind, "hidden_bullish") {
        "hidden_bullish_divergence"
    } else {
        "unknown"
    }
}

impl Driver {
    /// The name of the driver.
    pub fn name(self) -> (out: &'static str)
        ensures
            out@ == match self {
                Driver::SpotLed => "spot_led"@,
                Driver::FuturesLed => "futures_led"@,
                Driver::Mixed => "mixed"@,
            },
    {
        match self {
            Driver::SpotLed => "spot_led",
            Driver::FuturesLed => "futures_led",
            Driver::Mixed => "mixed",
        }
    }
}

/// A minute as the rules see it; what looks back over more minutes than were seen
/// is absent.
pub open spec fn derive_minute(futures: FuturesMinute, spot: SpotMinute, seq: int) -> DerivedMinute {
    DerivedMinute {
        seq: seq as usize,
        ts_bucket: futures.ts_bucket,
        close: futures.quote.spec_close_or_last().at,
        high: futures.quote.spec_high().at,
        low: futures.quote.spec_low().at,
        cvd_fut: futures.cvd,
        cvd_spot: spot.cvd,
        detrended_price: if seq + 1 >= DETREND_LEN_PRICE {
            Some(futures.detrended_price)
        } else {
            None
        },
        z_cvd_fut: if seq + 1 >= ROBUST_Z_LOOKBACK {
            futures.z_cvd
        } else {
            None
        },
        z_cvd_spot: if seq + 1 >= ROBUST_Z_LOOKBACK {
            spot.z_cvd
        } else {
            None
        },
        atr: if seq + 1 >= ATR_LOOKBACK {
            Some(futures.atr)
        } else {
            None
        },
    }
}

/// A minute as the rules see it.
pub fn derived(futures: &FuturesMinute, spot: &SpotMinute, seq: usize) -> (out: DerivedMinute)
    ensures
        out == derive_minute(*futures, *spot, seq as int),
{
    DerivedMinute {
        seq,
        ts_bucket: futures.ts_bucket,
        close: futures.quote.close_or_last().at,
        high: futures.quote.high_or_zero().at,
        low: futures.quote.low_or_zero().at,
        cvd_fut: futures.cvd,
        cvd_spot: spot.cvd,
        detrended_price: if seq >= DETREND_LEN_PRICE - 1 {
            Some(futures.detrended_price)
        } else {
            None
        },
        z_cvd_fut: if seq >= ROBUST_Z_LOOKBACK - 1 {
            futures.z_cvd
        } else {
            None
        },
        z_cvd_spot: if seq >= ROBUST_Z_LOOKBACK - 1 {
            spot.z_cvd
        } else {
            None
        },
        atr: if seq >= ATR_LOOKBACK - 1 {
            Some(futures.atr)
        } else {
            None
        },
    }
}

/// The least change of price: half an average true range, where there is one to speak of.
pub open spec fn least_change(atr: Option<Key>) -> Key {
    match atr {
        Some(range) => if range > KEY_EPS {
            order::half(range)
        } else {
            KEY_INFINITY
        },
        None => KEY_INFINITY,
    }
}

/// The kind of divergence that the changes of price and delta make, if any: they
/// go apart by at least their least changes.
pub open spec fn kind_of(leg: Leg, m: LegMeasure) -> Option<DivergenceKind> {
    let least = least_change(leg.second.atr);
    let price_up = order::is_no_less(m.price_diff, least as int);
    let price_down = order::is_no_more(m.price_diff, -least);
    let flow_up = order::is_no_less(m.cvd_diff_fut, KEY_HALF as int);
    let flow_down = order::is_no_more(m.cvd_diff_fut, -KEY_HALF);
    if leg.high {
        if price_up && flow_down {
            Some(DivergenceKind::Bearish)
        } else if price_down && flow_up {
            Some(DivergenceKind::HiddenBearish)
        } else {
            None
        }
    } else {
        if price_down && flow_up {
            Some(DivergenceKind::Bullish)
        } else if price_up && flow_down {
            Some(DivergenceKind::HiddenBullish)
        } else {
            None
        }
    }
}

/// How likely chance explains an effect: certainty one way or the other by its
/// size, or what resampling said.
pub open spec fn p_value(effect: Key, resampled: Option<Key>, mode: DivergenceSigTestMode) -> Key {
    match (mode, resampled) {
        (DivergenceSigTestMode::BlockBootstrap, Some(p)) => p,
        _ => if effect >= KEY_ONE || effect <= -KEY_ONE {
            0
        } else {
            KEY_ONE
        },
    }
}

/// Whether the effects of a leg are significant.
pub open spec fn significant(m: LegMeasure, mode: DivergenceSigTestMode, threshold: Key) -> bool {
    match mode {
        DivergenceSigTestMode::Threshold => {
            &&& m.price_effect_z >= KEY_ONE || m.price_effect_z <= -KEY_ONE
            &&& order::is_no_less(m.cvd_diff_fut, KEY_ONE as int) || order::is_no_more(
                m.cvd_diff_fut,
                -KEY_ONE,
            )
        },
        DivergenceSigTestMode::BlockBootstrap => {
            &&& p_value(m.price_effect_z, m.p_value_price, mode) <= threshold
            &&& p_value(order::key_of_bits(m.cvd_diff_fut) as i64, m.p_value_cvd, mode)
                <= threshold
        },
    }
}

/// How far spot led: its share of the flow where it went with the price and
/// futures against it.
pub open spec fn lead_score(m: LegMeasure) -> Key {
    if m.flow_size > KEY_EPS && order::sign(m.price_diff) == order::sign(m.cvd_diff_spot)
        && order::sign(m.price_diff) != order::sign(m.cvd_diff_fut) {
        m.spot_share
    } else {
        0
    }
}

/// Who moved the price.
pub open spec fn driver_of(lead: Key, fut_sign: i16) -> Driver {
    if lead >= KEY_SPOT_LED {
        Driver::SpotLed
    } else if lead < KEY_FUTURES_LED && fut_sign != -1 {
        Driver::FuturesLed
    } else {
        Driver::Mixed
    }
}

/// Whether two minutes make a leg that is worth judging: of the right length, over
/// a range that can be told, far enough, with all standardised values present.
pub open spec fn is_judged(first: DerivedMinute, second: DerivedMinute, m: LegMeasure) -> bool {
    let minutes = clock::whole_minutes(second.ts_bucket - first.ts_bucket);
    &&& MIN_LEG_GAP_MINUTES <= minutes <= MAX_LEG_GAP_MINUTES
    &&& second.atr matches Some(atr) && atr > KEY_EPS
    &&& m.leg_eff >= KEY_HALF
    &&& first.z_cvd_fut is Some
    &&& second.z_cvd_fut is Some
    &&& first.z_cvd_spot is Some
    &&& second.z_cvd_spot is Some
}

/// The verdict on a leg, if it diverges significantly.
pub open spec fn verdict_on(
    leg: Leg,
    m: LegMeasure,
    mode: DivergenceSigTestMode,
    threshold: Key,
) -> Option<Verdict> {
    match kind_of(leg, m) {
        Some(kind) => if is_judged(leg.first, leg.second, m) && significant(m, mode, threshold) {
            let fut_sign: i16 = if order::sign(m.price_diff) == order::sign(m.cvd_diff_fut) {
                1
            } else {
                (-1) as i16
            };
            Some(
                Verdict {
                    kind,
                    leg_minutes: clock::whole_minutes(
                        leg.second.ts_bucket - leg.first.ts_bucket,
                    ) as i64,
                    p_value_price: p_value(m.price_effect_z, m.p_value_price, mode),
                    p_value_cvd: p_value(
                        order::key_of_bits(m.cvd_diff_fut) as i64,
                        m.p_value_cvd,
                        mode,
                    ),
                    spot_price_flow_confirm: order::sign(m.price_diff) == order::sign(
                        m.cvd_diff_spot,
                    ),
                    fut_divergence_sign: fut_sign,
                    spot_lead_score: lead_score(m),
                    likely_driver: driver_of(lead_score(m), fut_sign),
                },
            )
        } else {
            None
        },
        None => None,
    }
}

fn kind(leg: &Leg, m: &LegMeasure) -> (out: Option<DivergenceKind>)
    ensures
        out == kind_of(*leg, *m),
{
    let least: Key = match leg.second.atr {
        Some(range) => if range > KEY_EPS {
            half_key(range)
        } else {
            KEY_INFINITY
        },
        None => KEY_INFINITY,
    };
    let price_up: bool = no_less(m.price_diff, least);
    let price_down: bool = no_more(m.price_diff, -least);
    let flow_up: bool = no_less(m.cvd_diff_fut, KEY_HALF);
    let flow_down: bool = no_more(m.cvd_diff_fut, -KEY_HALF);
    if leg.high {
        if price_up && flow_down {
            Some(DivergenceKind::Bearish)
        } else if price_down && flow_up {
            Some(DivergenceKind::HiddenBearish)
        } else {
            None
        }
    } else if price_down && flow_up {
        Some(DivergenceKind::Bullish)
    } else if price_up && flow_down {
        Some(DivergenceKind::HiddenBullish)
    } else {
        None
    }
}

fn chance(effect: Key, resampled: Option<Key>, mode: DivergenceSigTestMode) -> (out: Key)
    ensures
        out == p_value(effect, resampled, mode),
{
    let by_size: Key = if effect >= KEY_ONE || effect <= -KEY_ONE {
        0
    } else {
        KEY_ONE
    };
    match mode {
        DivergenceSigTestMode::Threshold => by_size,
        DivergenceSigTestMode::BlockBootstrap => match resampled {
            Some(p) => p,
            None => by_size,
        },
    }
}

fn driver(lead: Key, fut_sign: i16) -> (out: Driver)
    ensures
        out == driver_of(lead, fut_sign),
{
    if lead >= KEY_SPOT_LED {
        Driver::SpotLed
    } else if lead < KEY_FUTURES_LED && fut_sign != -1 {
        Driver::FuturesLed
    } else {
        Driver::Mixed
    }
}

/// The verdict on a leg, if it diverges significantly.
pub fn judge(leg: &Leg, m: &LegMeasure, mode: DivergenceSigTestMode, threshold: Key) -> (out: Option<
    Verdict,
>)
    requires
        clock::is_instant(leg.first.ts_bucket),
        clock::is_instant(leg.second.ts_bucket),
    ensures
        out == verdict_on(*leg, *m, mode, threshold),
{
    let leg_minutes: i64 = minutes_between(leg.first.ts_bucket, leg.second.ts_bucket);
    if leg_minutes < MIN_LEG_GAP_MINUTES || leg_minutes > MAX_LEG_GAP_MINUTES {
        return None;
    }
    let atr: Key = match leg.second.atr {
        Some(atr) => atr,
        None => 0,
    };
    if atr <= KEY_EPS || m.leg_eff < KEY_HALF {
        return None;
    }
    if leg.first.z_cvd_fut.is_none() || leg.second.z_cvd_fut.is_none()
        || leg.first.z_cvd_spot.is_none() || leg.second.z_cvd_spot.is_none() {
        return None;
    }
    let kind: DivergenceKind = match kind(leg, m) {
        Some(kind) => kind,
        None => {
            return None;
        },
    };
    let p_value_price: Key = chance(m.price_effect_z, m.p_value_price, mode);
    let p_value_cvd: Key = chance(order_key(m.cvd_diff_fut), m.p_value_cvd, mode);
    let sig_pass: bool = match mode {
        DivergenceSigTestMode::Threshold => (m.price_effect_z >= KEY_ONE || m.price_effect_z
            <= -KEY_ONE) && (no_less(m.cvd_diff_fut, KEY_ONE) || no_more(m.cvd_diff_fut, -KEY_ONE)),
        DivergenceSigTestMode::BlockBootstrap => p_value_price <= threshold && p_value_cvd
            <= threshold,
    };
    if !sig_pass {
        return None;
    }
    let price_sign: i16 = sign_of(m.price_diff);
    let spot_sign: i16 = sign_of(m.cvd_diff_spot);
    let flow_sign: i16 = sign_of(m.cvd_diff_fut);
    let fut_divergence_sign: i16 = if price_sign == flow_sign {
        1
    } else {
        -1
    };
    let spot_lead_score: Key = if m.flow_size > KEY_EPS && price_sign == spot_sign && price_sign
        != flow_sign {
        m.spot_share
    } else {
        0
    };
    Some(
        Verdict {
            kind,
            leg_minutes,
            p_value_price,
            p_value_cvd,
            spot_price_flow_confirm: price_sign == spot_sign,
            fut_divergence_sign,
            spot_lead_score,
            likely_driver: driver(spot_lead_score, fut_divergence_sign),
        },
    )
}

/// The minutes that resampling draws for a leg.
pub fn leg_len(leg: &Leg) -> (out: usize)
    requires
        leg.idx_1 <= leg.idx_2 < usize::MAX,
    ensures
        out == if leg.idx_1 == leg.idx_2 {
            2
        } else {
            leg.idx_2 - leg.idx_1 + 1
        },
{
    if leg.idx_1 == leg.idx_2 {
        2
    } else {
        leg.idx_2 - leg.idx_1 + 1
    }
}

/// The seeds from which the price and the delta of a leg are resampled.
pub fn leg_seeds(leg: &Leg) -> (out: (u64, u64))
    ensures
        out.0 == ((leg.idx_1 as u64) << 32) ^ (leg.idx_2 as u64) ^ 0xA5A5_5A5A_u64,
        out.1 == ((leg.idx_1 as u64) << 32) ^ (leg.idx_2 as u64) ^ 0x5AA5_A55A_u64,
{
    let base: u64 = ((leg.idx_1 as u64) << 32) ^ (leg.idx_2 as u64);
    (base ^ 0xA5A5_5A5A_u64, base ^ 0x5AA5_A55A_u64)
}

/// The event of a leg that diverges.
pub open spec fn event_from(
    leg: Leg,
    m: LegMeasure,
    verdict: Verdict,
    confirm_1: int,
    confirm_2: int,
    available: int,
) -> DivergenceEventData {
    DivergenceEventData {
        divergence_type: verdict.kind,
        pivot_side_high: leg.high,
        event_start_ts: leg.first.ts_bucket,
        event_end_ts: (leg.second.ts_bucket + MINUTE_US) as i64,
        event_available_ts: available as i64,
        pivot_ts_1: leg.first.ts_bucket,
        pivot_ts_2: leg.second.ts_bucket,
        pivot_confirm_ts_1: confirm_1 as i64,
        pivot_confirm_ts_2: confirm_2 as i64,
        price_start: if leg.high {
            leg.first.high
        } else {
            leg.first.low
        },
        price_end: if leg.high {
            leg.second.high
        } else {
            leg.second.low
        },
        cvd_start_fut: leg.first.cvd_fut,
        cvd_end_fut: leg.second.cvd_fut,
        cvd_start_spot: leg.first.cvd_spot,
        cvd_end_spot: leg.second.cvd_spot,
        measure: m,
        verdict,
    }
}

fn assemble(
    leg: &Leg,
    m: &LegMeasure,
    verdict: Verdict,
    confirm_1: i64,
    confirm_2: i64,
    available: i64,
) -> (out: DivergenceEventData)
    requires
        clock::is_instant(leg.second.ts_bucket),
    ensures
        out == event_from(
            *leg,
            *m,
            verdict,
            confirm_1 as int,
            confirm_2 as int,
            available as int,
        ),
{
    DivergenceEventData {
        divergence_type: verdict.kind,
        pivot_side_high: leg.high,
        event_start_ts: leg.first.ts_bucket,
        event_end_ts: leg.second.ts_bucket + MINUTE_US,
        event_available_ts: available,
        pivot_ts_1: leg.first.ts_bucket,
        pivot_ts_2: leg.second.ts_bucket,
        pivot_confirm_ts_1: confirm_1,
        pivot_confirm_ts_2: confirm_2,
        price_start: if leg.high {
            leg.first.high
        } else {
            leg.first.low
        },
        price_end: if leg.high {
            leg.second.high
        } else {
            leg.second.low
        },
        cvd_start_fut: leg.first.cvd_fut,
        cvd_end_fut: leg.second.cvd_fut,
        cvd_start_spot: leg.first.cvd_spot,
        cvd_end_spot: leg.second.cvd_spot,
        measure: *m,
        verdict,
    }
}

/// The extreme of a minute: its high or its low.
pub open spec fn extreme(minute: DerivedMinute, high: bool) -> Key {
    if high {
        minute.high
    } else {
        minute.low
    }
}

/// The extremes of a run of minutes.
pub open spec fn extremes(minutes: Seq<DerivedMinute>, high: bool) -> Seq<Key> {
    Seq::new(minutes.len(), |i: int| extreme(minutes[i], high))
}

/// Pivots with the places of the minutes that confirm them, no later than `last_idx`.
pub open spec fn with_confirms(listed: Seq<int>, k: int, last_idx: int) -> Seq<(int, int)>
    decreases listed.len(),
{
    if listed.len() == 0 {
        Seq::empty()
    } else {
        let rest = with_confirms(listed.drop_last(), k, last_idx);
        if listed.last() + k <= last_idx {
            rest.push((listed.last(), listed.last() + k))
        } else {
            rest
        }
    }
}

/// Pairs of places as mathematical integers.
pub open spec fn as_places(pairs: Seq<(usize, usize)>) -> Seq<(int, int)> {
    Seq::new(pairs.len(), |i: int| (pairs[i].0 as int, pairs[i].1 as int))
}

fn confirmed_pivots(values: &[Key], k: usize, last_idx: usize, high: bool) -> (out: Vec<
    (usize, usize),
>)
    requires
        2 * k < usize::MAX,
        values@.len() + k <= usize::MAX,
    ensures
        as_places(out@) == with_confirms(
            pivots::all_pivots(values@, k as int, high),
            k as int,
            last_idx as int,
        ),
{
    let listed: Vec<usize> = list_pivots(values, k, high);
    let ghost all = pivots::all_pivots(values@, k as int, high);
    let mut out: Vec<(usize, usize)> = Vec::new();
    let mut i: usize = 0;
    proof {
        pivots::law_pivots_listed(values@, values@.len() as int, k as int, high);
        assert(all.take(0) =~= Seq::empty());
        assert(as_places(out@) =~= Seq::empty());
    }
    while i < listed.len()
        invariant
            i <= listed@.len(),
            listed@.map_values(|a: usize| a as int) == all,
            values@.len() + k <= usize::MAX,
            forall|a: int| 0 <= a < all.len() ==> 0 <= #[trigger] all[a] < values@.len(),
            as_places(out@) == with_confirms(all.take(i as int), k as int, last_idx as int),
        decreases listed@.len() - i,
    {
        let at: usize = listed[i];
        let ghost before = out@;
        proof {
            assert(all[i as int] == at);
            assert(all.take(i + 1).drop_last() =~= all.take(i as int));
            assert(all.take(i + 1).last() == at);
        }
        if at + k <= last_idx {
            out.push((at, at + k));
            proof {
                assert(as_places(out@) =~= as_places(before).push((at as int, at + k)));
            }
        }
        i += 1;
    }
    proof {
        assert(all.take(i as int) =~= all);
    }
    out
}

/// The high pivots known at `last_idx`, each with the place of the minute that
/// confirms it.
pub fn confirmed_high_pivots(highs: &[Key], k: usize, last_idx: usize) -> (out: Vec<(usize, usize)>)
    requires
        2 * k < usize::MAX,
        highs@.len() + k <= usize::MAX,
    ensures
        as_places(out@) == with_confirms(
            pivots::all_pivots(highs@, k as int, true),
            k as int,
            last_idx as int,
        ),
{
    confirmed_pivots(highs, k, last_idx, true)
}

/// The low pivots known at `last_idx`, each with the place of the minute that
/// confirms it.
pub fn confirmed_low_pivots(lows: &[Key], k: usize, last_idx: usize) -> (out: Vec<(usize, usize)>)
    requires
        2 * k < usize::MAX,
        lows@.len() + k <= usize::MAX,
    ensures
        as_places(out@) == with_confirms(
            pivots::all_pivots(lows@, k as int, false),
            k as int,
            last_idx as int,
        ),
{
    confirmed_pivots(lows, k, last_idx, false)
}

/// The leg between two places of a history.
pub open spec fn leg_between(minutes: Seq<DerivedMinute>, i1: int, i2: int, high: bool) -> Leg {
    Leg {
        high,
        idx_1: i1 as usize,
        idx_2: i2 as usize,
        first: minutes[i1],
        second: minutes[i2],
    }
}

/// The candidate of the neighbouring pivots `p - 1` and `p`, if their leg diverges.
pub open spec fn candidate_of(
    minutes: Seq<DerivedMinute>,
    listed: Seq<(int, int)>,
    p: int,
    m: LegMeasure,
    mode: DivergenceSigTestMode,
    threshold: Key,
    high: bool,
) -> Option<DivergenceCandidate> {
    let (i1, c1) = listed[p - 1];
    let (i2, c2) = listed[p];
    let leg = leg_between(minutes, i1, i2, high);
    match verdict_on(leg, m, mode, threshold) {
        Some(verdict) => Some(
            DivergenceCandidate {
                i1: i1 as usize,
                i2: i2 as usize,
                confirm_i1: c1 as usize,
                confirm_i2: c2 as usize,
                available_i: if c1 < c2 {
                    c2 as usize
                } else {
                    c1 as usize
                },
                leg,
                measure: m,
                verdict,
            },
        ),
        None => None,
    }
}

/// The candidates of the first `pairs` pairs of neighbouring pivots.
pub open spec fn candidates_of(
    minutes: Seq<DerivedMinute>,
    listed: Seq<(int, int)>,
    measures: Seq<LegMeasure>,
    pairs: int,
    mode: DivergenceSigTestMode,
    threshold: Key,
    high: bool,
) -> Seq<DivergenceCandidate>
    decreases pairs,
{
    if pairs <= 0 {
        Seq::empty()
    } else {
        let rest = candidates_of(minutes, listed, measures, pairs - 1, mode, threshold, high);
        match candidate_of(minutes, listed, pairs, measures[pairs - 1], mode, threshold, high) {
            Some(candidate) => rest.push(candidate),
            None => rest,
        }
    }
}

/// The candidates among neighbouring pivots; `measures` holds what was measured of
/// each pair.
pub fn all_candidates(
    high: bool,
    pivots: &[(usize, usize)],
    minutes: &[DerivedMinute],
    measures: &[LegMeasure],
    mode: DivergenceSigTestMode,
    threshold: Key,
) -> (out: Vec<DivergenceCandidate>)
    requires
        forall|p: int| 0 <= p < pivots@.len() ==> (#[trigger] pivots@[p]).0 < minutes@.len(),
        pivots@.len() <= measures@.len() + 1,
        forall|i: int|
            0 <= i < minutes@.len() ==> clock::is_instant(#[trigger] minutes@[i].ts_bucket),
    ensures
        out@ == candidates_of(
            minutes@,
            as_places(pivots@),
            measures@,
            pivots@.len() - 1,
            mode,
            threshold,
            high,
        ),
{
    let mut out: Vec<DivergenceCandidate> = Vec::new();
    let n: usize = pivots.len();
    let ghost places = as_places(pivots@);
    let mut p: usize = 1;
    while p < n
        invariant
            n == pivots@.len(),
            n == 0 || 1 <= p <= n,
            n == 0 ==> p == 1,
            places == as_places(pivots@),
            forall|q: int| 0 <= q < pivots@.len() ==> (#[trigger] pivots@[q]).0 < minutes@.len(),
            pivots@.len() <= measures@.len() + 1,
            forall|i: int|
                0 <= i < minutes@.len() ==> clock::is_instant(#[trigger] minutes@[i].ts_bucket),
            out@ == candidates_of(minutes@, places, measures@, p - 1, mode, threshold, high),
        decreases n - p,
    {
        let (i1, c1) = pivots[p - 1];
        let (i2, c2) = pivots[p];
        let leg: Leg = Leg { high, idx_1: i1, idx_2: i2, first: minutes[i1], second: minutes[i2] };
        proof {
            assert(places[p - 1] == (i1 as int, c1 as int));
            assert(places[p as int] == (i2 as int, c2 as int));
        }
        if let Some(verdict) = judge(&leg, &measures[p - 1], mode, threshold) {
            out.push(
                DivergenceCandidate {
                    i1,
                    i2,
                    confirm_i1: c1,
                    confirm_i2: c2,
                    available_i: if c1 < c2 {
                        c2
                    } else {
                        c1
                    },
                    leg,
                    measure: measures[p - 1],
                    verdict,
                },
            );
        }
        p += 1;
    }
    out
}

/// Whether a candidate joins the neighbouring pivots `p - 1` and `p` of its side, which lie
/// between the least and the most minutes of a leg apart, significantly. Price and futures
/// flow went opposite ways between them: where the pivots are highs it is bearish if the
/// price rose and a hidden bearish one if it fell, where they are lows bullish if it fell and
/// a hidden bullish one if it rose. So futures did not lead: spot did where its score is
/// high enough, else neither.
pub open spec fn joins_pivots(
    c: DivergenceCandidate,
    minutes: Seq<DerivedMinute>,
    listed: Seq<(int, int)>,
    p: int,
    mode: DivergenceSigTestMode,
    threshold: Key,
    high: bool,
) -> bool {
    let gap = clock::whole_minutes(
        minutes[c.i2 as int].ts_bucket - minutes[c.i1 as int].ts_bucket,
    );
    let rose = order::key_of_bits(c.measure.price_diff) > 0;
    &&& c.i1 == listed[p - 1].0
    &&& c.i2 == listed[p].0
    &&& c.leg == leg_between(minutes, listed[p - 1].0, listed[p].0, high)
    &&& MIN_LEG_GAP_MINUTES <= gap <= MAX_LEG_GAP_MINUTES
    &&& c.verdict.leg_minutes == gap
    &&& significant(c.measure, mode, threshold)
    &&& if rose {
        order::key_of_bits(c.measure.cvd_diff_fut) < 0
    } else {
        order::key_of_bits(c.measure.price_diff) < 0 && order::key_of_bits(c.measure.cvd_diff_fut)
            > 0
    }
    &&& c.verdict.kind == if high {
        if rose {
            DivergenceKind::Bearish
        } else {
            DivergenceKind::HiddenBearish
        }
    } else {
        if rose {
            DivergenceKind::HiddenBullish
        } else {
            DivergenceKind::Bullish
        }
    }
    &&& c.verdict.fut_divergence_sign == -1
    &&& c.verdict.likely_driver == if c.verdict.spot_lead_score >= KEY_SPOT_LED {
        Driver::SpotLed
    } else {
        Driver::Mixed
    }
}

/// Every candidate joins two neighbouring pivots of its side, 3 to 180 minutes apart,
/// between which price and futures flow went opposite ways, and is of the kind and has the
/// driver that go with them.
pub proof fn law_candidates_join_pivots(
    minutes: Seq<DerivedMinute>,
    listed: Seq<(int, int)>,
    measures: Seq<LegMeasure>,
    pairs: int,
    mode: DivergenceSigTestMode,
    threshold: Key,
    high: bool,
    at: int,
)
    requires
        pairs < listed.len(),
        pairs <= measures.len(),
        forall|p: int|
            0 <= p < listed.len() ==> 0 <= (#[trigger] listed[p]).0 < minutes.len() <= usize::MAX,
        forall|i: int|
            0 <= i < minutes.len() ==> clock::is_instant(#[trigger] minutes[i].ts_bucket),
        0 <= at < candidates_of(minutes, listed, measures, pairs, mode, threshold, high).len(),
    ensures
        exists|p: int|
            1 <= p <= pairs && #[trigger] joins_pivots(
                candidates_of(minutes, listed, measures, pairs, mode, threshold, high)[at],
                minutes,
                listed,
                p,
                mode,
                threshold,
                high,
            ),
    decreases pairs,
{
    let rest = candidates_of(minutes, listed, measures, pairs - 1, mode, threshold, high);
    let all = candidates_of(minutes, listed, measures, pairs, mode, threshold, high);
    if at < rest.len() {
        law_candidates_join_pivots(
            minutes,
            listed,
            measures,
            pairs - 1,
            mode,
            threshold,
            high,
            at,
        );
        let p = choose|p: int|
            1 <= p <= pairs - 1 && #[trigger] joins_pivots(
                rest[at],
                minutes,
                listed,
                p,
                mode,
                threshold,
                high,
            );
        assert(joins_pivots(all[at], minutes, listed, p, mode, threshold, high));
    } else {
        let i1 = listed[pairs - 1].0;
        let i2 = listed[pairs].0;
        assert(clock::is_instant(minutes[i1].ts_bucket));
        assert(clock::is_instant(minutes[i2].ts_bucket));
        assert(joins_pivots(all[at], minutes, listed, pairs, mode, threshold, high));
    }
}

/// Whether one candidate comes no later than another: by when it is known, then
/// by its first, then by its second pivot.
pub open spec fn no_later(a: DivergenceCandidate, b: DivergenceCandidate) -> bool {
    if a.available_i != b.available_i {
        a.available_i < b.available_i
    } else if a.i1 != b.i1 {
        a.i1 < b.i1
    } else {
        a.i2 <= b.i2
    }
}

fn comes_no_later(a: &DivergenceCandidate, b: &DivergenceCandidate) -> (out: bool)
    ensures
        out == no_later(*a, *b),
{
    if a.available_i != b.available_i {
        a.available_i < b.available_i
    } else if a.i1 != b.i1 {
        a.i1 < b.i1
    } else {
        a.i2 <= b.i2
    }
}

/// A run with one more candidate put in its place, after those that come no later.
pub open spec fn put_in(sorted: Seq<DivergenceCandidate>, candidate: DivergenceCandidate) -> Seq<
    DivergenceCandidate,
>
    decreases sorted.len(),
{
    if sorted.len() == 0 || no_later(sorted.last(), candidate) {
        sorted.push(candidate)
    } else {
        put_in(sorted.drop_last(), candidate).push(sorted.last())
    }
}

/// Candidates in order, equal ones in the order they were given.
pub open spec fn in_turn(candidates: Seq<DivergenceCandidate>) -> Seq<DivergenceCandidate>
    decreases candidates.len(),
{
    if candidates.len() == 0 {
        Seq::empty()
    } else {
        put_in(in_turn(candidates.drop_last()), candidates.last())
    }
}

proof fn lemma_put_in(sorted: Seq<DivergenceCandidate>, candidate: DivergenceCandidate)
    requires
        forall|i: int, j: int|
            0 <= i <= j < sorted.len() ==> no_later(#[trigger] sorted[i], #[trigger] sorted[j]),
    ensures
        ({
            let out = put_in(sorted, candidate);
            &&& out.len() == sorted.len() + 1
            &&& out.to_multiset() == sorted.to_multiset().insert(candidate)
            &&& forall|i: int, j: int|
                0 <= i <= j < out.len() ==> no_later(#[trigger] out[i], #[trigger] out[j])
            &&& forall|i: int|
                0 <= i < out.len() ==> (#[trigger] out[i]) == candidate || sorted.contains(out[i])
        }),
    decreases sorted.len(),
{
    broadcast use vstd::seq_lib::group_to_multiset_ensures;

    let out = put_in(sorted, candidate);
    if sorted.len() == 0 || no_later(sorted.last(), candidate) {
        assert forall|i: int, j: int| 0 <= i <= j < out.len() implies no_later(
            #[trigger] out[i],
            #[trigger] out[j],
        ) by {
            if j == sorted.len() && i < j {
                assert(no_later(sorted[i], sorted.last()));
            }
        }
        assert forall|i: int| 0 <= i < out.len() implies (#[trigger] out[i]) == candidate
            || sorted.contains(out[i]) by {
            if i < sorted.len() {
                assert(sorted[i] == out[i]);
            }
        }
    } else {
        let rest = sorted.drop_last();
        let inner = put_in(rest, candidate);
        lemma_put_in(rest, candidate);
        assert(sorted =~= rest.push(sorted.last()));
        assert(out.to_multiset() =~= sorted.to_multiset().insert(candidate));
        assert forall|i: int, j: int| 0 <= i <= j < out.len() implies no_later(
            #[trigger] out[i],
            #[trigger] out[j],
        ) by {
            if j == inner.len() && i < j {
                assert(out[i] == inner[i]);
                if inner[i] != candidate {
                    let a = choose|a: int| 0 <= a < rest.len() && rest[a] == inner[i];
                    assert(no_later(sorted[a], sorted.last()));
                }
            } else if j < inner.len() {
                assert(out[i] == inner[i] && out[j] == inner[j]);
            }
        }
        assert forall|i: int| 0 <= i < out.len() implies (#[trigger] out[i]) == candidate
            || sorted.contains(out[i]) by {
            if i < inner.len() {
                assert(out[i] == inner[i]);
                if inner[i] != candidate {
                    let a = choose|a: int| 0 <= a < rest.len() && rest[a] == inner[i];
                    assert(sorted[a] == out[i]);
                }
            } else {
                assert(sorted[sorted.len() - 1] == out[i]);
            }
        }
    }
}

/// Putting candidates in order loses none, adds none and leaves them in order.
pub proof fn law_in_turn(candidates: Seq<DivergenceCandidate>)
    ensures
        in_turn(candidates).len() == candidates.len(),
        in_turn(candidates).to_multiset() == candidates.to_multiset(),
        forall|i: int, j: int|
            0 <= i <= j < candidates.len() ==> no_later(
                #[trigger] in_turn(candidates)[i],
                #[trigger] in_turn(candidates)[j],
            ),
    decreases candidates.len(),
{
    broadcast use vstd::seq_lib::group_to_multiset_ensures;

    if candidates.len() > 0 {
        law_in_turn(candidates.drop_last());
        lemma_put_in(in_turn(candidates.drop_last()), candidates.last());
        assert(candidates =~= candidates.drop_last().push(candidates.last()));
    } else {
        assert(in_turn(candidates) =~= candidates);
    }
}

/// Puts candidates in order.
fn sort_candidates(candidates: &Vec<DivergenceCandidate>) -> (out: Vec<DivergenceCandidate>)
    ensures
        out@ == in_turn(candidates@),
{
    let mut out: Vec<DivergenceCandidate> = Vec::new();
    let mut i: usize = 0;
    proof {
        assert(candidates@.take(0) =~= Seq::empty());
    }
    while i < candidates.len()
        invariant
            i <= candidates@.len(),
            out@ == in_turn(candidates@.take(i as int)),
        decreases candidates@.len() - i,
    {
        let candidate: DivergenceCandidate = candidates[i];
        let ghost sorted = out@;
        let mut at: usize = out.len();
        proof {
            assert(sorted.take(at as int) =~= sorted);
            assert(sorted.subrange(at as int, sorted.len() as int) =~= Seq::empty());
            assert(put_in(sorted, candidate) + Seq::<DivergenceCandidate>::empty() =~= put_in(
                sorted,
                candidate,
            ));
        }
        while at > 0 && !comes_no_later(&out[at - 1], &candidate)
            invariant
                at <= out@.len(),
                out@ == sorted,
                put_in(sorted, candidate) == put_in(sorted.take(at as int), candidate)
                    + sorted.subrange(at as int, sorted.len() as int),
            decreases at,
        {
            proof {
                let t = sorted.take(at as int);
                assert(t.last() == sorted[at - 1]);
                assert(t.drop_last() =~= sorted.take(at - 1));
                assert(put_in(sorted.take(at - 1), candidate).push(sorted[at - 1])
                    + sorted.subrange(at as int, sorted.len() as int) =~= put_in(
                    sorted.take(at - 1),
                    candidate,
                ) + sorted.subrange(at - 1, sorted.len() as int));
            }
            at -= 1;
        }
        out.insert(at, candidate);
        proof {
            let t = sorted.take(at as int);
            if at > 0 {
                assert(t.last() == sorted[at - 1]);
            }
            assert(put_in(t, candidate) == t.push(candidate));
            assert(out@ =~= t.push(candidate) + sorted.subrange(at as int, sorted.len() as int));
            assert(candidates@.take(i + 1).drop_last() =~= candidates@.take(i as int));
            assert(candidates@.take(i + 1).last() == candidate);
        }
        i += 1;
    }
    proof {
        assert(candidates@.take(i as int) =~= candidates@);
    }
    out
}

/// The event of a candidate of a history.
pub open spec fn candidate_event(candidate: DivergenceCandidate, minutes: Seq<DerivedMinute>) -> DivergenceEventData {
    event_from(
        candidate.leg,
        candidate.measure,
        candidate.verdict,
        minutes[candidate.confirm_i1 as int].ts_bucket as int,
        minutes[candidate.confirm_i2 as int].ts_bucket as int,
        minutes[candidate.available_i as int].ts_bucket + MINUTE_US,
    )
}

/// The event of a candidate of a history.
pub fn candidate_to_event_data(candidate: &DivergenceCandidate, minutes: &[DerivedMinute]) -> (out:
    DivergenceEventData)
    requires
        candidate.confirm_i1 < minutes@.len(),
        candidate.confirm_i2 < minutes@.len(),
        candidate.available_i < minutes@.len(),
        clock::is_instant(candidate.leg.second.ts_bucket),
        forall|i: int|
            0 <= i < minutes@.len() ==> clock::is_instant(#[trigger] minutes@[i].ts_bucket),
    ensures
        out == candidate_event(*candidate, minutes@),
{
    proof {
        assert(clock::is_instant(minutes@[candidate.available_i as int].ts_bucket));
    }
    assemble(
        &candidate.leg,
        &candidate.measure,
        candidate.verdict,
        minutes[candidate.confirm_i1].ts_bucket,
        minutes[candidate.confirm_i2].ts_bucket,
        minutes[candidate.available_i].ts_bucket + MINUTE_US,
    )
}

/// A whole history as the rules see it.
pub open spec fn derived_minutes(futures: Seq<FuturesMinute>, spot: Seq<SpotMinute>) -> Seq<
    DerivedMinute,
> {
    Seq::new(futures.len(), |i: int| derive_minute(futures[i], spot[i], i))
}

/// The pivots of one side of a history with the places of the minutes that confirm
/// them.
pub open spec fn side_places(minutes: Seq<DerivedMinute>, high: bool) -> Seq<(int, int)> {
    with_confirms(
        pivots::all_pivots(extremes(minutes, high), PIVOT_K as int, high),
        PIVOT_K as int,
        minutes.len() - 1,
    )
}

/// The candidates of one side of a history.
pub open spec fn side_candidates(
    minutes: Seq<DerivedMinute>,
    measures: Seq<LegMeasure>,
    mode: DivergenceSigTestMode,
    threshold: Key,
    high: bool,
) -> Seq<DivergenceCandidate> {
    let places = side_places(minutes, high);
    candidates_of(minutes, places, measures, places.len() - 1, mode, threshold, high)
}

/// How a leg is measured, given the minutes up to its end.
pub type Gauge = spec_fn(Leg, Seq<DerivedMinute>) -> LegMeasure;

/// What is measured of a leg among minutes.
pub open spec fn measured(gauge: Gauge, leg: Leg, minutes: Seq<DerivedMinute>) -> LegMeasure {
    gauge(leg, minutes.take(leg.idx_2 + 1))
}

/// The detrended prices of minutes.
pub open spec fn prices_of(minutes: Seq<DerivedMinute>) -> Seq<Option<Key>> {
    minutes.map_values(|minute: DerivedMinute| minute.detrended_price)
}

/// The standardised deltas of minutes.
pub open spec fn flows_of(minutes: Seq<DerivedMinute>) -> Seq<Option<Key>> {
    minutes.map_values(|minute: DerivedMinute| minute.z_cvd_fut)
}

/// Whether a function measures every leg as `gauge` does, from the leg and from the
/// detrended prices and standardised deltas of the minutes up to its end.
pub open spec fn measures_as<F: Fn(&Leg, &[Option<Key>], &[Option<Key>]) -> LegMeasure>(
    measure: F,
    gauge: Gauge,
) -> bool {
    forall|
        leg: &Leg,
        prices: &[Option<Key>],
        flows: &[Option<Key>],
        minutes: Seq<DerivedMinute>,
        m: LegMeasure,
    |
        #![trigger call_ensures(measure, (leg, prices, flows), m), prices_of(minutes)]
        call_ensures(measure, (leg, prices, flows), m) && prices@ == prices_of(minutes) && flows@
            == flows_of(minutes) ==> m == gauge(*leg, minutes)
}

/// Whether a function can be asked to measure any leg.
pub open spec fn can_measure<F: Fn(&Leg, &[Option<Key>], &[Option<Key>]) -> LegMeasure>(
    measure: F,
) -> bool {
    forall|leg: &Leg, prices: &[Option<Key>], flows: &[Option<Key>]| #[trigger]
        call_requires(measure, (leg, prices, flows))
}

/// The pivots of one side of a history.
pub open spec fn side_pivots(minutes: Seq<DerivedMinute>, high: bool) -> Seq<int> {
    pivots::all_pivots(extremes(minutes, high), PIVOT_K as int, high)
}

/// What was measured of the legs of one side of a history.
pub open spec fn side_measures(minutes: Seq<DerivedMinute>, gauge: Gauge, high: bool) -> Seq<
    LegMeasure,
> {
    let listed = side_pivots(minutes, high);
    Seq::new(
        (listed.len() - 1) as nat,
        |p: int|
            measured(gauge, leg_between(minutes, listed[p], listed[p + 1], high), minutes),
    )
}

/// The candidates of one side of a history, each leg measured by `gauge`.
pub open spec fn gauged_candidates(
    minutes: Seq<DerivedMinute>,
    gauge: Gauge,
    mode: DivergenceSigTestMode,
    threshold: Key,
    high: bool,
) -> Seq<DivergenceCandidate> {
    side_candidates(minutes, side_measures(minutes, gauge, high), mode, threshold, high)
}

/// The common end of two histories as the rules see it.
pub open spec fn common_minutes(futures: Seq<FuturesMinute>, spot: Seq<SpotMinute>) -> Seq<
    DerivedMinute,
> {
    let n = history::shorter(futures.len(), spot.len());
    derived_minutes(history::tail(futures, n), history::tail(spot, n))
}

/// The events of the candidates of both sides in turn, given what was measured of
/// the legs of each side.
spec fn measured_events(
    minutes: Seq<DerivedMinute>,
    high_measures: Seq<LegMeasure>,
    low_measures: Seq<LegMeasure>,
    mode: DivergenceSigTestMode,
    threshold: Key,
) -> Seq<DivergenceEventData> {
    if minutes.len() < MIN_HISTORY_MINUTES {
        Seq::empty()
    } else {
        in_turn(
            side_candidates(minutes, high_measures, mode, threshold, true) + side_candidates(
                minutes,
                low_measures,
                mode,
                threshold,
                false,
            ),
        ).map_values(|candidate: DivergenceCandidate| candidate_event(candidate, minutes))
    }
}

/// The events that one pass over two histories finds: those of the candidates of
/// both sides in turn, each leg measured by `gauge`.
pub open spec fn all_events(
    futures: Seq<FuturesMinute>,
    spot: Seq<SpotMinute>,
    gauge: Gauge,
    mode: DivergenceSigTestMode,
    threshold: Key,
) -> Seq<DivergenceEventData> {
    let minutes = common_minutes(futures, spot);
    if minutes.len() < MIN_HISTORY_MINUTES {
        Seq::empty()
    } else {
        in_turn(
            gauged_candidates(minutes, gauge, mode, threshold, true) + gauged_candidates(
                minutes,
                gauge,
                mode,
                threshold,
                false,
            ),
        ).map_values(|candidate: DivergenceCandidate| candidate_event(candidate, minutes))
    }
}

fn derive_all(futures: &[FuturesMinute], spot: &[SpotMinute]) -> (out: Vec<DerivedMinute>)
    requires
        futures@.len() == spot@.len(),
    ensures
        out@ == derived_minutes(futures@, spot@),
{
    let n: usize = futures.len();
    let mut out: Vec<DerivedMinute> = Vec::new();
    let mut i: usize = 0;
    while i < n
        invariant
            i <= n,
            n == futures@.len(),
            n == spot@.len(),
            out@ =~= derived_minutes(futures@, spot@).take(i as int),
        decreases n - i,
    {
        out.push(derived(&futures[i], &spot[i], i));
        i += 1;
    }
    out
}

/// The pivots of one side with the places of the minutes that confirm them.
fn side_pivot_places(minutes: &Vec<DerivedMinute>, high: bool) -> (out: Vec<(usize, usize)>)
    requires
        0 < minutes@.len(),
        minutes@.len() + PIVOT_K <= usize::MAX,
    ensures
        as_places(out@) == side_places(minutes@, high),
        forall|p: int|
            0 <= p < out@.len() ==> (#[trigger] out@[p]).0 < minutes@.len() && out@[p].1
                < minutes@.len(),
{
    let n: usize = minutes.len();
    let mut values: Vec<Key> = Vec::new();
    let mut i: usize = 0;
    while i < n
        invariant
            i <= n,
            n == minutes@.len(),
            values@ =~= extremes(minutes@, high).take(i as int),
        decreases n - i,
    {
        values.push(
            if high {
                minutes[i].high
            } else {
                minutes[i].low
            },
        );
        i += 1;
    }
    proof {
        assert(values@ =~= extremes(minutes@, high));
    }
    let out: Vec<(usize, usize)> = confirmed_pivots(&values, PIVOT_K, n - 1, high);
    proof {
        lemma_places(minutes@, high);
        assert forall|p: int| 0 <= p < out@.len() implies (#[trigger] out@[p]).0 < minutes@.len()
            && out@[p].1 < minutes@.len() by {
            assert(as_places(out@)[p] == (out@[p].0 as int, out@[p].1 as int));
        }
    }
    out
}

proof fn lemma_with_confirms(listed: Seq<int>, k: int, last_idx: int)
    requires
        forall|a: int| 0 <= a < listed.len() ==> #[trigger] listed[a] + k <= last_idx,
    ensures
        with_confirms(listed, k, last_idx) == Seq::new(
            listed.len(),
            |a: int| (listed[a], listed[a] + k),
        ),
    decreases listed.len(),
{
    if listed.len() > 0 {
        let rest = listed.drop_last();
        assert forall|a: int| 0 <= a < rest.len() implies #[trigger] rest[a] + k <= last_idx by {
            assert(rest[a] == listed[a]);
        }
        lemma_with_confirms(rest, k, last_idx);
        assert(listed[listed.len() - 1] + k <= last_idx);
    }
    assert(with_confirms(listed, k, last_idx) =~= Seq::new(
        listed.len(),
        |a: int| (listed[a], listed[a] + k),
    ));
}

/// Where the pivots of a side lie: each is confirmed within the history.
proof fn lemma_places(minutes: Seq<DerivedMinute>, high: bool)
    ensures
        ({
            let listed = side_pivots(minutes, high);
            &&& side_places(minutes, high) == Seq::new(
                listed.len(),
                |a: int| (listed[a], listed[a] + PIVOT_K),
            )
            &&& forall|a: int|
                0 <= a < listed.len() ==> PIVOT_K <= #[trigger] listed[a] < minutes.len() - PIVOT_K
            &&& forall|a: int, b: int|
                0 <= a < b < listed.len() ==> #[trigger] listed[a] < #[trigger] listed[b]
            &&& side_places(minutes, high).len() == listed.len()
            &&& forall|a: int|
                0 <= a < listed.len() ==> (#[trigger] side_places(minutes, high)[a]).0 == listed[a]
                    && side_places(minutes, high)[a].1 == listed[a] + PIVOT_K
        }),
{
    let listed = side_pivots(minutes, high);
    pivots::law_pivots_listed(
        extremes(minutes, high),
        minutes.len() as int,
        PIVOT_K as int,
        high,
    );
    assert forall|a: int| 0 <= a < listed.len() implies #[trigger] listed[a] + PIVOT_K
        <= minutes.len() - 1 by {
        assert(pivots::is_pivot(extremes(minutes, high), listed[a], PIVOT_K as int, high));
    }
    lemma_with_confirms(listed, PIVOT_K as int, minutes.len() - 1);
}

/// The legs of one side of two histories, in order: what is to be measured before
/// their events can be told.
fn history_legs(history_futures: &[FuturesMinute], history_spot: &[SpotMinute], high: bool) -> (out:
    Vec<Leg>)
    requires
        history_futures@.len() + PIVOT_K <= usize::MAX,
    ensures
        ({
            let minutes = common_minutes(history_futures@, history_spot@);
            let listed = side_pivots(minutes, high);
            &&& out@.len() == if listed.len() == 0 {
                0
            } else {
                listed.len() - 1
            }
            &&& forall|p: int|
                0 <= p < out@.len() ==> #[trigger] out@[p] == leg_between(
                    minutes,
                    listed[p],
                    listed[p + 1],
                    high,
                )
        }),
{
    let (futures, spot) = aligned_event_histories(history_futures, history_spot);
    let mut out: Vec<Leg> = Vec::new();
    let minutes: Vec<DerivedMinute> = derive_all(futures, spot);
    proof {
        lemma_places(minutes@, high);
    }
    if minutes.len() == 0 {
        return out;
    }
    let places: Vec<(usize, usize)> = side_pivot_places(&minutes, high);
    let ghost listed = side_pivots(minutes@, high);
    proof {
        assert(as_places(places@).len() == places@.len());
        assert forall|q: int| 0 <= q < places@.len() implies (#[trigger] places@[q]).0
            < minutes@.len() && places@[q].0 == listed[q] by {
            assert(as_places(places@)[q].0 == places@[q].0);
        }
    }
    let n: usize = places.len();
    let mut p: usize = 1;
    while p < n
        invariant
            n == places@.len(),
            n == listed.len(),
            n == 0 ==> p == 1,
            n == 0 || 1 <= p <= n,
            out@.len() == p - 1,
            listed == side_pivots(minutes@, high),
            forall|q: int|
                0 <= q < places@.len() ==> (#[trigger] places@[q]).0 < minutes@.len()
                    && places@[q].0 == listed[q],
            forall|q: int|
                0 <= q < out@.len() ==> #[trigger] out@[q] == leg_between(
                    minutes@,
                    listed[q],
                    listed[q + 1],
                    high,
                ),
        decreases n - p,
    {
        let i1: usize = places[p - 1].0;
        let i2: usize = places[p].0;
        out.push(Leg { high, idx_1: i1, idx_2: i2, first: minutes[i1], second: minutes[i2] });
        p += 1;
    }
    out
}

proof fn lemma_in_turn_all(candidates: Seq<DivergenceCandidate>, n: int)
    requires
        forall|i: int| 0 <= i < candidates.len() ==> within(#[trigger] candidates[i], n),
    ensures
        forall|i: int|
            0 <= i < in_turn(candidates).len() ==> within(#[trigger] in_turn(candidates)[i], n),
    decreases candidates.len(),
{
    if candidates.len() > 0 {
        let rest = candidates.drop_last();
        let last = candidates.last();
        assert forall|i: int| 0 <= i < rest.len() implies within(#[trigger] rest[i], n) by {
            assert(rest[i] == candidates[i]);
        }
        lemma_in_turn_all(rest, n);
        law_in_turn(rest);
        lemma_put_in(in_turn(rest), last);
        let out = in_turn(candidates);
        assert forall|i: int| 0 <= i < out.len() implies within(#[trigger] out[i], n) by {
            if out[i] != last {
                assert(in_turn(rest).contains(out[i]));
                let j = choose|j: int| 0 <= j < in_turn(rest).len() && in_turn(rest)[j] == out[i];
                assert(within(in_turn(rest)[j], n));
            } else {
                assert(within(candidates[candidates.len() - 1], n));
            }
        }
    }
}

/// Whether the places of a candidate lie in a history of `n` minutes.
spec fn within(candidate: DivergenceCandidate, n: int) -> bool {
    &&& candidate.confirm_i1 < n
    &&& candidate.confirm_i2 < n
    &&& candidate.available_i < n
    &&& clock::is_instant(candidate.leg.second.ts_bucket)
}

proof fn lemma_candidates_within(
    minutes: Seq<DerivedMinute>,
    measures: Seq<LegMeasure>,
    pairs: int,
    mode: DivergenceSigTestMode,
    threshold: Key,
    high: bool,
)
    requires
        pairs < side_places(minutes, high).len(),
        minutes.len() <= usize::MAX,
        forall|i: int| 0 <= i < minutes.len() ==> clock::is_instant(#[trigger] minutes[i].ts_bucket),
    ensures
        ({
            let found = candidates_of(
                minutes,
                side_places(minutes, high),
                measures,
                pairs,
                mode,
                threshold,
                high,
            );
            forall|i: int|
                0 <= i < found.len() ==> within(#[trigger] found[i], minutes.len() as int)
        }),
    decreases pairs,
{
    if pairs > 0 {
        lemma_candidates_within(minutes, measures, pairs - 1, mode, threshold, high);
        lemma_places(minutes, high);
        let listed = side_pivots(minutes, high);
        assert(listed[pairs - 1] < listed[pairs]);
        assert(side_places(minutes, high)[pairs - 1].0 == listed[pairs - 1]);
        assert(side_places(minutes, high)[pairs].0 == listed[pairs]);
        assert(clock::is_instant(minutes[listed[pairs]].ts_bucket));
        let rest = candidates_of(
            minutes,
            side_places(minutes, high),
            measures,
            pairs - 1,
            mode,
            threshold,
            high,
        );
        let found = candidates_of(
            minutes,
            side_places(minutes, high),
            measures,
            pairs,
            mode,
            threshold,
            high,
        );
        assert forall|i: int| 0 <= i < found.len() implies within(
            #[trigger] found[i],
            minutes.len() as int,
        ) by {
            if i < rest.len() {
                assert(found[i] == rest[i]);
            }
        }
    }
}

/// The events of two histories, found in one pass over their common end; the
/// measures are those of the legs that [`history_legs`] lists for each side.
fn events_of_measured(
    history_futures: &[FuturesMinute],
    history_spot: &[SpotMinute],
    high_measures: &[LegMeasure],
    low_measures: &[LegMeasure],
    mode: DivergenceSigTestMode,
    threshold: Key,
) -> (out: Vec<DivergenceEventData>)
    requires
        history_futures@.len() + PIVOT_K <= usize::MAX,
        forall|i: int|
            0 <= i < history_futures@.len() ==> clock::is_instant(
                #[trigger] history_futures@[i].ts_bucket,
            ),
        side_pivots(common_minutes(history_futures@, history_spot@), true).len()
            <= high_measures@.len() + 1,
        side_pivots(common_minutes(history_futures@, history_spot@), false).len()
            <= low_measures@.len() + 1,
    ensures
        out@ == measured_events(
            common_minutes(history_futures@, history_spot@),
            high_measures@,
            low_measures@,
            mode,
            threshold,
        ),
{
    let (futures, spot) = aligned_event_histories(history_futures, history_spot);
    let n: usize = futures.len();
    let mut out: Vec<DivergenceEventData> = Vec::new();
    if n < MIN_HISTORY_MINUTES {
        return out;
    }
    let minutes: Vec<DerivedMinute> = derive_all(futures, spot);
    let high_places: Vec<(usize, usize)> = side_pivot_places(&minutes, true);
    let low_places: Vec<(usize, usize)> = side_pivot_places(&minutes, false);
    proof {
        lemma_places(minutes@, true);
        lemma_places(minutes@, false);
        assert(as_places(high_places@).len() == high_places@.len());
        assert(as_places(low_places@).len() == low_places@.len());
    }
    let mut candidates: Vec<DivergenceCandidate> = all_candidates(
        true,
        &high_places,
        &minutes,
        high_measures,
        mode,
        threshold,
    );
    let mut lows: Vec<DivergenceCandidate> = all_candidates(
        false,
        &low_places,
        &minutes,
        low_measures,
        mode,
        threshold,
    );
    proof {
        lemma_candidates_within(
            minutes@,
            high_measures@,
            high_places@.len() - 1,
            mode,
            threshold,
            true,
        );
        lemma_candidates_within(
            minutes@,
            low_measures@,
            low_places@.len() - 1,
            mode,
            threshold,
            false,
        );
    }
    candidates.append(&mut lows);
    proof {
        assert(candidates@ =~= side_candidates(
            minutes@,
            high_measures@,
            mode,
            threshold,
            true,
        ) + side_candidates(minutes@, low_measures@, mode, threshold, false));
        lemma_in_turn_all(candidates@, minutes@.len() as int);
    }
    let sorted: Vec<DivergenceCandidate> = sort_candidates(&candidates);
    let mut i: usize = 0;
    while i < sorted.len()
        invariant
            i <= sorted@.len(),
            forall|j: int| 0 <= j < sorted@.len() ==> within(#[trigger] sorted@[j], minutes@.len() as int),
            forall|j: int|
                0 <= j < minutes@.len() ==> clock::is_instant(#[trigger] minutes@[j].ts_bucket),
            out@ =~= sorted@.map_values(
                |candidate: DivergenceCandidate| candidate_event(candidate, minutes@),
            ).take(i as int),
        decreases sorted@.len() - i,
    {
        proof {
            assert(within(sorted@[i as int], minutes@.len() as int));
        }
        out.push(candidate_to_event_data(&sorted[i], &minutes));
        i += 1;
    }
    out
}

/// What a function measures of the legs of one side of two histories, in order.
fn measure_side<F: Fn(&Leg, &[Option<Key>], &[Option<Key>]) -> LegMeasure>(
    history_futures: &[FuturesMinute],
    history_spot: &[SpotMinute],
    high: bool,
    measure: &F,
) -> (out: Vec<LegMeasure>)
    requires
        history_futures@.len() + PIVOT_K <= usize::MAX,
        can_measure(*measure),
    ensures
        side_pivots(common_minutes(history_futures@, history_spot@), high).len() <= out@.len() + 1,
        forall|gauge: Gauge| #[trigger]
            measures_as(*measure, gauge) && side_pivots(
                common_minutes(history_futures@, history_spot@),
                high,
            ).len() > 0 ==> out@ == side_measures(
                common_minutes(history_futures@, history_spot@),
                gauge,
                high,
            ),
{
    let legs: Vec<Leg> = history_legs(history_futures, history_spot, high);
    let (futures, spot) = aligned_event_histories(history_futures, history_spot);
    let minutes: Vec<DerivedMinute> = derive_all(futures, spot);
    let n: usize = minutes.len();
    let mut prices: Vec<Option<Key>> = Vec::new();
    let mut flows: Vec<Option<Key>> = Vec::new();
    let mut i: usize = 0;
    while i < n
        invariant
            i <= n,
            n == minutes@.len(),
            prices@ =~= prices_of(minutes@).take(i as int),
            flows@ =~= flows_of(minutes@).take(i as int),
        decreases n - i,
    {
        prices.push(minutes[i].detrended_price);
        flows.push(minutes[i].z_cvd_fut);
        i += 1;
    }
    proof {
        lemma_places(minutes@, high);
    }
    let ghost listed = side_pivots(minutes@, high);
    let mut out: Vec<LegMeasure> = Vec::new();
    let mut p: usize = 0;
    while p < legs.len()
        invariant
            p <= legs@.len(),
            p == out@.len(),
            n == minutes@.len(),
            listed == side_pivots(minutes@, high),
            legs@.len() < listed.len() || legs@.len() == 0,
            can_measure(*measure),
            prices@ =~= prices_of(minutes@),
            flows@ =~= flows_of(minutes@),
            forall|a: int|
                0 <= a < listed.len() ==> PIVOT_K <= #[trigger] listed[a] < minutes@.len() - PIVOT_K,
            forall|q: int|
                0 <= q < legs@.len() ==> #[trigger] legs@[q] == leg_between(
                    minutes@,
                    listed[q],
                    listed[q + 1],
                    high,
                ),
            forall|gauge: Gauge, q: int|
                #![trigger measures_as(*measure, gauge), out@[q]]
                measures_as(*measure, gauge) && 0 <= q < out@.len() ==> out@[q] == measured(
                    gauge,
                    legs@[q],
                    minutes@,
                ),
        decreases legs@.len() - p,
    {
        proof {
            assert(legs@[p as int].idx_2 == listed[p + 1]);
        }
        let end: usize = legs[p].idx_2 + 1;
        let m: LegMeasure = measure(
            &legs[p],
            vstd::slice::slice_subrange(prices.as_slice(), 0, end),
            vstd::slice::slice_subrange(flows.as_slice(), 0, end),
        );
        proof {
            let upto = minutes@.take(end as int);
            assert(prices_of(upto) =~= prices@.subrange(0, end as int));
            assert(flows_of(upto) =~= flows@.subrange(0, end as int));
        }
        out.push(m);
        p += 1;
    }
    proof {
        assert forall|gauge: Gauge| #[trigger]
            measures_as(*measure, gauge) && listed.len() > 0 implies out@ == side_measures(
            minutes@,
            gauge,
            high,
        ) by {
            assert forall|q: int| 0 <= q < out@.len() implies out@[q] == side_measures(
                minutes@,
                gauge,
                high,
            )[q] by {
                assert(out@[q] == measured(gauge, legs@[q], minutes@));
            }
            assert(out@ =~= side_measures(minutes@, gauge, high));
        }
    }
    out
}

/// The events of two histories, found in one pass over their common end, each leg
/// measured by a given function.
pub fn compute_divergence_all_history<
    F: Fn(&Leg, &[Option<Key>], &[Option<Key>]) -> LegMeasure,
>(
    history_futures: &[FuturesMinute],
    history_spot: &[SpotMinute],
    mode: DivergenceSigTestMode,
    threshold: Key,
    measure: F,
) -> (out: Vec<DivergenceEventData>)
    requires
        history_futures@.len() + PIVOT_K <= usize::MAX,
        forall|i: int|
            0 <= i < history_futures@.len() ==> clock::is_instant(
                #[trigger] history_futures@[i].ts_bucket,
            ),
        can_measure(measure),
    ensures
        forall|gauge: Gauge| #[trigger]
            measures_as(measure, gauge) ==> out@ == all_events(
                history_futures@,
                history_spot@,
                gauge,
                mode,
                threshold,
            ),
{
    let highs: Vec<LegMeasure> = measure_side(history_futures, history_spot, true, &measure);
    let lows: Vec<LegMeasure> = measure_side(history_futures, history_spot, false, &measure);
    proof {
        let minutes = common_minutes(history_futures@, history_spot@);
        lemma_places(minutes, true);
        lemma_places(minutes, false);
    }
    events_of_measured(history_futures, history_spot, &highs, &lows, mode, threshold)
}

/// The state of the machine as mathematics sees it.
#[verifier::ext_equal]
pub struct MachineState {
    /// The minutes kept, oldest first.
    pub minutes: Seq<DerivedMinute>,
    /// The events found, oldest first.
    pub events: Seq<CachedEvent>,
    /// Running number of the newest high pivot.
    pub last_high: Option<usize>,
    /// Running number of the newest low pivot.
    pub last_low: Option<usize>,
    /// Start of the newest minute.
    pub last_ts: Option<i64>,
    /// The running number of the next minute.
    pub next_seq: int,
}

/// A machine that has seen nothing.
pub open spec fn fresh() -> MachineState {
    MachineState {
        minutes: Seq::empty(),
        events: Seq::empty(),
        last_high: None,
        last_low: None,
        last_ts: None,
        next_seq: 0,
    }
}

/// The place of the minute with the given running number, if it is kept.
pub open spec fn place_of(minutes: Seq<DerivedMinute>, seq: int) -> Option<int> {
    let first = minutes[0].seq;
    if minutes.len() > 0 && first <= seq < first + minutes.len() {
        Some(seq - first)
    } else {
        None
    }
}

/// The event of a leg that diverges, as the machine dates it.
pub open spec fn dated_event(leg: Leg, m: LegMeasure, verdict: Verdict) -> DivergenceEventData {
    event_from(
        leg,
        m,
        verdict,
        leg.first.ts_bucket + PIVOT_K * MINUTE_US,
        leg.second.ts_bucket + PIVOT_K * MINUTE_US,
        leg.second.ts_bucket + (PIVOT_K + 1) * MINUTE_US,
    )
}

/// The first instant that the history of a leg's event has to reach back to.
pub open spec fn required_start(leg: Leg) -> int {
    let by_values = leg.second.ts_bucket - REQUIRED_MINUTES * MINUTE_US;
    let by_pivot = leg.first.ts_bucket - PIVOT_K * MINUTE_US;
    if by_values < by_pivot {
        by_values
    } else {
        by_pivot
    }
}

/// The event of a leg, if it diverges.
pub open spec fn leg_event(
    leg: Leg,
    m: LegMeasure,
    mode: DivergenceSigTestMode,
    threshold: Key,
) -> Option<CachedEvent> {
    match verdict_on(leg, m, mode, threshold) {
        Some(verdict) => Some(
            CachedEvent {
                required_start_ts: required_start(leg) as i64,
                event: dated_event(leg, m, verdict),
            },
        ),
        None => None,
    }
}

/// One value or none as a run.
pub open spec fn as_run<T>(value: Option<T>) -> Seq<T> {
    match value {
        Some(v) => seq![v],
        None => Seq::empty(),
    }
}

impl MachineState {
    /// The newest pivot of one side.
    pub open spec fn last_pivot(self, high: bool) -> Option<usize> {
        if high {
            self.last_high
        } else {
            self.last_low
        }
    }

    /// Whether the newest minute completes a pivot of one side.
    pub open spec fn completes_pivot(self, high: bool) -> bool {
        pivots::is_pivot(
            extremes(self.minutes, high),
            self.minutes.len() - 1 - PIVOT_K,
            PIVOT_K as int,
            high,
        )
    }

    /// The leg that the newest minute completes on one side, if any.
    pub open spec fn leg_found(self, high: bool) -> Option<Leg> {
        let i = self.minutes.len() - 1 - PIVOT_K;
        match self.last_pivot(high) {
            Some(seq) => match place_of(self.minutes, seq as int) {
                Some(place) => if self.completes_pivot(high) {
                    Some(leg_between(self.minutes, place, i, high))
                } else {
                    None
                },
                None => None,
            },
            None => None,
        }
    }

    /// The state after a pivot that the newest minute completes was noted.
    pub open spec fn pivot_checked(self, high: bool) -> MachineState {
        let i = self.minutes.len() - 1 - PIVOT_K;
        if self.completes_pivot(high) {
            MachineState {
                last_high: if high {
                    Some(self.minutes[i].seq)
                } else {
                    self.last_high
                },
                last_low: if high {
                    self.last_low
                } else {
                    Some(self.minutes[i].seq)
                },
                ..self
            }
        } else {
            self
        }
    }

    /// The state after one more minute, before pivots are looked for.
    pub open spec fn taken_in(self, minute: DerivedMinute) -> MachineState {
        MachineState {
            minutes: self.minutes.push(minute),
            next_seq: self.next_seq + 1,
            ..self
        }
    }

    /// The state after one more pair of minutes.
    pub open spec fn append(self, futures: FuturesMinute, spot: SpotMinute) -> MachineState {
        self.taken_in(derive_minute(futures, spot, self.next_seq)).pivot_checked(true).pivot_checked(
            false,
        )
    }

    /// The legs that one more pair of minutes completes, a high one first.
    pub open spec fn new_legs(self, futures: FuturesMinute, spot: SpotMinute) -> Seq<Leg> {
        let taken = self.taken_in(derive_minute(futures, spot, self.next_seq));
        as_run(taken.leg_found(true)) + as_run(taken.leg_found(false))
    }

    /// The state after a leg was judged.
    pub open spec fn settle(
        self,
        leg: Leg,
        m: LegMeasure,
        mode: DivergenceSigTestMode,
        threshold: Key,
    ) -> MachineState {
        match leg_event(leg, m, mode, threshold) {
            Some(event) => MachineState { events: self.events.push(event), ..self },
            None => self,
        }
    }

    /// The same state with other events.
    pub open spec fn holding(self, events: Seq<CachedEvent>) -> MachineState {
        MachineState { events, ..self }
    }

    /// The same state with another newest minute.
    pub open spec fn ending_at(self, last_ts: Option<i64>) -> MachineState {
        MachineState { last_ts, ..self }
    }

    /// The state without what reaches back before `first_ts`.
    pub open spec fn pruned(self, first_ts: i64) -> MachineState {
        let minutes = history::drop_while(self.minutes, starts_before(first_ts));
        MachineState {
            minutes,
            events: history::drop_while(self.events, needs_before(first_ts)),
            last_high: kept_pivot(minutes, self.last_high),
            last_low: kept_pivot(minutes, self.last_low),
            ..self
        }
    }

    /// The state from which the machine is to be brought up to two histories, and
    /// the place in their common end from which on minutes are to be taken in.
    pub open spec fn sync_from(
        self,
        futures: Seq<FuturesMinute>,
        spot: Seq<SpotMinute>,
        mode: DivergenceSigTestMode,
    ) -> (MachineState, int) {
        let n = history::shorter(futures.len(), spot.len());
        let f = history::tail(futures, n);
        if n == 0 {
            (fresh(), 0)
        } else if self.minutes.len() > 0 && self.minutes[0].ts_bucket < f[0].ts_bucket
            && mode is BlockBootstrap {
            (fresh(), 0)
        } else {
            match self.last_ts {
                Some(seen) if seen < f.last().ts_bucket => {
                    let kept = self.pruned(f[0].ts_bucket);
                    let k = history::first_at_or_after(history::stamps(f), (seen + MINUTE_US) as i64);
                    if k == 0 && kept.minutes.len() == 0 {
                        (fresh(), 0)
                    } else {
                        (kept, k)
                    }
                },
                _ => (fresh(), 0),
            }
        }
    }

    /// The minutes are numbered without gaps up to the newest.
    pub open spec fn well_formed(self) -> bool {
        &&& 0 <= self.minutes.len() <= self.next_seq
        &&& forall|i: int|
            0 <= i < self.minutes.len() ==> #[trigger] self.minutes[i].seq == self.next_seq
                - self.minutes.len() + i
        &&& forall|i: int|
            0 <= i < self.minutes.len() ==> clock::is_instant(#[trigger] self.minutes[i].ts_bucket)
        &&& self.last_ts matches Some(ts) ==> clock::is_instant(ts)
    }
}

/// Of minutes: starts before `first_ts`.
pub open spec fn starts_before(first_ts: i64) -> spec_fn(DerivedMinute) -> bool {
    |minute: DerivedMinute| minute.ts_bucket < first_ts
}

/// Of events: needs history before `first_ts`.
pub open spec fn needs_before(first_ts: i64) -> spec_fn(CachedEvent) -> bool {
    |entry: CachedEvent|
        entry.required_start_ts < first_ts || entry.event.event_start_ts < first_ts
}

/// A pivot, if its minute is kept.
pub open spec fn kept_pivot(minutes: Seq<DerivedMinute>, pivot: Option<usize>) -> Option<usize> {
    match pivot {
        Some(seq) => if place_of(minutes, seq as int) is Some {
            pivot
        } else {
            None
        },
        None => None,
    }
}

/// Finds divergences minute by minute. A minute that is taken in may complete a leg
/// on each side; each is measured by a function of the caller's and judged.
pub struct DivergenceEventStateMachine {
    minutes: VecDeque<DerivedMinute>,
    events: VecDeque<CachedEvent>,
    last_high_pivot: Option<usize>,
    last_low_pivot: Option<usize>,
    last_ts: Option<i64>,
    next_seq: usize,
}

impl View for DivergenceEventStateMachine {
    type V = MachineState;

    closed spec fn view(&self) -> MachineState {
        MachineState {
            minutes: self.minutes@,
            events: self.events@,
            last_high: self.last_high_pivot,
            last_low: self.last_low_pivot,
            last_ts: self.last_ts,
            next_seq: self.next_seq as int,
        }
    }
}

impl Default for DivergenceEventStateMachine {
    fn default() -> (out: Self)
        ensures
            out@ == fresh(),
            out@.well_formed(),
    {
        DivergenceEventStateMachine {
            minutes: VecDeque::new(),
            events: VecDeque::new(),
            last_high_pivot: None,
            last_low_pivot: None,
            last_ts: None,
            next_seq: 0,
        }
    }
}

impl DivergenceEventStateMachine {
    /// The place of the minute with the given running number.
    fn offset_of(&self, seq: usize) -> (out: Option<usize>)
        requires
            self@.well_formed(),
        ensures
            out is Some <==> place_of(self@.minutes, seq as int) is Some,
            out matches Some(i) ==> i < self@.minutes.len() && place_of(self@.minutes, seq as int)
                == Some(i as int),
    {
        if self.minutes.len() == 0 {
            return None;
        }
        let first: usize = self.minutes[0].seq;
        if seq < first || seq - first >= self.minutes.len() {
            return None;
        }
        Some(seq - first)
    }

    /// The events found so far, oldest first.
    pub fn events(&self) -> (out: Vec<DivergenceEventData>)
        ensures
            out@ == self@.events.map_values(|entry: CachedEvent| entry.event),
    {
        let mut out: Vec<DivergenceEventData> = Vec::new();
        let mut i: usize = 0;
        while i < self.events.len()
            invariant
                i <= self@.events.len(),
                out@ =~= self@.events.map_values(|entry: CachedEvent| entry.event).take(i as int),
            decreases self@.events.len() - i,
        {
            out.push(self.events[i].event);
            i += 1;
        }
        out
    }

    /// The detrended prices and the standardised deltas of the minutes up to `end_idx`.
    fn series_up_to(&self, end_idx: usize) -> (out: (Vec<Option<Key>>, Vec<Option<Key>>))
        requires
            end_idx < self@.minutes.len(),
        ensures
            out.0@ == Seq::new((end_idx + 1) as nat, |i: int| self@.minutes[i].detrended_price),
            out.1@ == Seq::new((end_idx + 1) as nat, |i: int| self@.minutes[i].z_cvd_fut),
    {
        let mut prices: Vec<Option<Key>> = Vec::new();
        let mut flows: Vec<Option<Key>> = Vec::new();
        let mut i: usize = 0;
        let n: usize = self.minutes.len();
        while i <= end_idx
            invariant
                i <= end_idx + 1,
                end_idx < n,
                n == self@.minutes.len(),
                prices@ =~= Seq::new(i as nat, |j: int| self@.minutes[j].detrended_price),
                flows@ =~= Seq::new(i as nat, |j: int| self@.minutes[j].z_cvd_fut),
            decreases end_idx + 1 - i,
        {
            prices.push(self.minutes[i].detrended_price);
            flows.push(self.minutes[i].z_cvd_fut);
            i += 1;
        }
        (prices, flows)
    }

    fn extreme_at(&self, i: usize, high: bool) -> (out: Key)
        requires
            i < self@.minutes.len(),
        ensures
            out == extremes(self@.minutes, high)[i as int],
    {
        if high {
            self.minutes[i].high
        } else {
            self.minutes[i].low
        }
    }

    /// Whether the newest minute completes a pivot of one side.
    fn has_pivot(&self, high: bool) -> (out: bool)
        ensures
            out == self@.completes_pivot(high),
    {
        let n: usize = self.minutes.len();
        if n < PIVOT_K + 1 + PIVOT_K {
            return false;
        }
        let i: usize = n - 1 - PIVOT_K;
        let ghost values = extremes(self@.minutes, high);
        let pivot: Key = self.extreme_at(i, high);
        let mut j: usize = i - PIVOT_K;
        while j < i
            invariant
                i - PIVOT_K <= j <= i,
                n == self@.minutes.len(),
                i == n - 1 - PIVOT_K,
                PIVOT_K <= i,
                values == extremes(self@.minutes, high),
                pivot == values[i as int],
                forall|a: int|
                    i - PIVOT_K <= a < j ==> pivots::beyond(pivot, #[trigger] values[a], high),
            decreases i - j,
        {
            if !is_beyond(pivot, self.extreme_at(j, high), high) {
                return false;
            }
            j += 1;
        }
        j = i + 1;
        while j <= i + PIVOT_K
            invariant
                i + 1 <= j <= i + PIVOT_K + 1,
                n == self@.minutes.len(),
                i == n - 1 - PIVOT_K,
                PIVOT_K <= i,
                values == extremes(self@.minutes, high),
                pivot == values[i as int],
                forall|a: int| i < a < j ==> !pivots::beyond(#[trigger] values[a], pivot, high),
            decreases i + PIVOT_K + 1 - j,
        {
            if is_beyond(self.extreme_at(j, high), pivot, high) {
                return false;
            }
            j += 1;
        }
        true
    }

    /// Notes a pivot that the newest minute completes on one side, and gives the leg
    /// that it makes with the pivot before it.
    fn maybe_confirm_pivot(&mut self, high: bool) -> (out: Option<Leg>)
        requires
            old(self)@.well_formed(),
        ensures
            final(self)@ == old(self)@.pivot_checked(high),
            out == old(self)@.leg_found(high),
    {
        if !self.has_pivot(high) {
            return None;
        }
        let i: usize = self.minutes.len() - 1 - PIVOT_K;
        let pivot: DerivedMinute = self.minutes[i];
        let previous: Option<usize> = if high {
            self.last_high_pivot
        } else {
            self.last_low_pivot
        };
        let leg: Option<Leg> = match previous {
            Some(seq) => match self.offset_of(seq) {
                Some(place) => Some(
                    Leg {
                        high,
                        idx_1: place,
                        idx_2: i,
                        first: self.minutes[place],
                        second: pivot,
                    },
                ),
                None => None,
            },
            None => None,
        };
        if high {
            self.last_high_pivot = Some(pivot.seq);
        } else {
            self.last_low_pivot = Some(pivot.seq);
        }
        leg
    }

    /// Takes in one more pair of minutes and hands out the legs that it completes.
    fn append_pair(&mut self, futures: &FuturesMinute, spot: &SpotMinute) -> (legs: Vec<Leg>)
        requires
            old(self)@.well_formed(),
            old(self)@.next_seq < usize::MAX,
            clock::is_instant(futures.ts_bucket),
        ensures
            final(self)@ == old(self)@.append(*futures, *spot),
            final(self)@.well_formed(),
            legs@ == old(self)@.new_legs(*futures, *spot),
    {
        let minute: DerivedMinute = derived(futures, spot, self.next_seq);
        self.next_seq += 1;
        self.minutes.push_back(minute);
        let mut legs: Vec<Leg> = Vec::new();
        proof {
            assert(self@ =~= old(self)@.taken_in(minute));
        }
        if let Some(leg) = self.maybe_confirm_pivot(true) {
            legs.push(leg);
        }
        if let Some(leg) = self.maybe_confirm_pivot(false) {
            legs.push(leg);
        }
        proof {
            assert(legs@ =~= old(self)@.new_legs(*futures, *spot));
        }
        legs
    }

    /// Judges a leg that was handed out and notes its event, if it diverges.
    fn settle(
        &mut self,
        leg: &Leg,
        m: &LegMeasure,
        mode: DivergenceSigTestMode,
        threshold: Key,
    )
        requires
            clock::is_instant(leg.first.ts_bucket),
            clock::is_instant(leg.second.ts_bucket),
        ensures
            final(self)@ == old(self)@.settle(*leg, *m, mode, threshold),
    {
        if let Some(verdict) = judge(leg, m, mode, threshold) {
            let by_values: i64 = leg.second.ts_bucket - REQUIRED_MINUTES * MINUTE_US;
            let by_pivot: i64 = leg.first.ts_bucket - 3 * MINUTE_US;
            let event: DivergenceEventData = assemble(
                leg,
                m,
                verdict,
                leg.first.ts_bucket + 3 * MINUTE_US,
                leg.second.ts_bucket + 3 * MINUTE_US,
                leg.second.ts_bucket + 4 * MINUTE_US,
            );
            self.events.push_back(
                CachedEvent {
                    required_start_ts: if by_values < by_pivot {
                        by_values
                    } else {
                        by_pivot
                    },
                    event,
                },
            );
        }
    }

    /// Forgets what reaches back before `first_ts`.
    fn prune_before(&mut self, first_ts: i64)
        requires
            old(self)@.well_formed(),
        ensures
            final(self)@ == old(self)@.pruned(first_ts),
            final(self)@.well_formed(),
    {
        while self.minutes.len() > 0 && self.minutes[0].ts_bucket < first_ts
            invariant
                history::drop_while(self.minutes@, starts_before(first_ts)) == history::drop_while(
                    old(self)@.minutes,
                    starts_before(first_ts),
                ),
                self@ == (MachineState { minutes: self@.minutes, ..old(self)@ }),
            decreases self.minutes@.len(),
        {
            let removed: Option<DerivedMinute> = self.minutes.pop_front();
        }
        let ghost minutes = history::drop_while(old(self)@.minutes, starts_before(first_ts));
        while self.events.len() > 0 && (self.events[0].required_start_ts < first_ts
            || self.events[0].event.event_start_ts < first_ts)
            invariant
                history::drop_while(self.events@, needs_before(first_ts)) == history::drop_while(
                    old(self)@.events,
                    needs_before(first_ts),
                ),
                self@ == (MachineState { minutes, events: self@.events, ..old(self)@ }),
            decreases self.events@.len(),
        {
            let removed: Option<CachedEvent> = self.events.pop_front();
        }
        proof {
            let k = history::lemma_drop_while(old(self)@.minutes, starts_before(first_ts));
            assert(self@.well_formed());
        }
        if let Some(seq) = self.last_high_pivot {
            if self.offset_of(seq).is_none() {
                self.last_high_pivot = None;
            }
        }
        if let Some(seq) = self.last_low_pivot {
            if self.offset_of(seq).is_none() {
                self.last_low_pivot = None;
            }
        }
    }

    /// Makes the machine ready to be brought up to two histories, and gives the
    /// place in their common end from which on minutes are to be taken in.
    fn begin_sync(
        &mut self,
        history_futures: &[FuturesMinute],
        history_spot: &[SpotMinute],
        mode: DivergenceSigTestMode,
    ) -> (start: usize)
        requires
            old(self)@.well_formed(),
            forall|i: int|
                0 <= i < history_futures@.len() ==> clock::is_instant(
                    #[trigger] history_futures@[i].ts_bucket,
                ),
        ensures
            (final(self)@, start as int) == old(self)@.sync_from(
                history_futures@,
                history_spot@,
                mode,
            ),
            final(self)@.well_formed(),
            start <= history::shorter(history_futures@.len(), history_spot@.len()),
    {
        let (futures, spot) = aligned_event_histories(history_futures, history_spot);
        let n: usize = futures.len();
        if n == 0 {
            *self = DivergenceEventStateMachine::default();
            return 0;
        }
        let first_ts: i64 = futures[0].ts_bucket;
        let last_ts: i64 = futures[n - 1].ts_bucket;
        let front_pruned: bool = self.minutes.len() > 0 && self.minutes[0].ts_bucket < first_ts;
        if front_pruned && mode == DivergenceSigTestMode::BlockBootstrap {
            *self = DivergenceEventStateMachine::default();
            return 0;
        }
        let seen: i64 = match self.last_ts {
            Some(ts) => {
                if ts >= last_ts {
                    *self = DivergenceEventStateMachine::default();
                    return 0;
                }
                ts
            },
            None => {
                *self = DivergenceEventStateMachine::default();
                return 0;
            },
        };
        self.prune_before(first_ts);
        let start: usize = lower_bound(futures, seen + MINUTE_US);
        if start == 0 && self.minutes.len() == 0 {
            *self = DivergenceEventStateMachine::default();
            return 0;
        }
        start
    }

    /// Notes the newest minute of the histories that the machine was brought up to.
    fn finish(&mut self, last_ts: Option<i64>)
        requires
            old(self)@.well_formed(),
            last_ts matches Some(ts) ==> clock::is_instant(ts),
        ensures
            final(self)@ == old(self)@.ending_at(last_ts),
            final(self)@.well_formed(),
    {
        self.last_ts = last_ts;
    }
}

impl DivergenceEventStateMachine {
    /// Measures and judges legs that were handed out.
    fn settle_all<F: Fn(&Leg, &[Option<Key>], &[Option<Key>]) -> LegMeasure>(
        &mut self,
        legs: &Vec<Leg>,
        mode: DivergenceSigTestMode,
        threshold: Key,
        measure: &F,
    )
        requires
            old(self)@.well_formed(),
            can_measure(*measure),
            forall|i: int|
                0 <= i < legs@.len() ==> (#[trigger] legs@[i]).idx_2 < old(self)@.minutes.len()
                    && clock::is_instant(legs@[i].first.ts_bucket) && clock::is_instant(
                    legs@[i].second.ts_bucket,
                ),
        ensures
            final(self)@.well_formed(),
            final(self)@.next_seq == old(self)@.next_seq,
            forall|gauge: Gauge| #[trigger]
                measures_as(*measure, gauge) ==> final(self)@ == old(self)@.settle_all(
                    legs@,
                    gauge,
                    mode,
                    threshold,
                ),
    {
        let ghost before = self@;
        let mut i: usize = 0;
        proof {
            assert(legs@.take(0) =~= Seq::empty());
        }
        while i < legs.len()
            invariant
                i <= legs@.len(),
                can_measure(*measure),
                self@.well_formed(),
                self@.minutes == before.minutes,
                self@.next_seq == before.next_seq,
                forall|j: int|
                    0 <= j < legs@.len() ==> (#[trigger] legs@[j]).idx_2 < before.minutes.len()
                        && clock::is_instant(legs@[j].first.ts_bucket) && clock::is_instant(
                        legs@[j].second.ts_bucket,
                    ),
                forall|gauge: Gauge| #[trigger]
                    measures_as(*measure, gauge) ==> self@ == before.settle_all(
                        legs@.take(i as int),
                        gauge,
                        mode,
                        threshold,
                    ),
            decreases legs@.len() - i,
        {
            let leg: Leg = legs[i];
            let (prices, flows) = self.series_up_to(leg.idx_2);
            let m: LegMeasure = measure(&leg, prices.as_slice(), flows.as_slice());
            let ghost held = self@;
            self.settle(&leg, &m, mode, threshold);
            proof {
                let upto = before.minutes.take(leg.idx_2 + 1);
                assert(prices@ =~= prices_of(upto));
                assert(flows@ =~= flows_of(upto));
                assert(legs@.take(i + 1).drop_last() =~= legs@.take(i as int));
                assert forall|gauge: Gauge| #[trigger] measures_as(*measure, gauge) implies self@
                    == before.settle_all(legs@.take(i + 1), gauge, mode, threshold) by {
                    assert(m == gauge(leg, upto));
                    assert(held == before.settle_all(
                        legs@.take(i as int),
                        gauge,
                        mode,
                        threshold,
                    ));
                }
            }
            i += 1;
        }
        proof {
            assert(legs@.take(i as int) =~= legs@);
        }
    }

    /// Takes in the minutes of two runs of one length from place `start` on, and measures
    /// and judges the legs that they complete.
    fn follow<F: Fn(&Leg, &[Option<Key>], &[Option<Key>]) -> LegMeasure>(
        &mut self,
        futures: &[FuturesMinute],
        spot: &[SpotMinute],
        start: usize,
        mode: DivergenceSigTestMode,
        threshold: Key,
        measure: &F,
    )
        requires
            old(self)@.well_formed(),
            can_measure(*measure),
            start <= futures@.len() == spot@.len(),
            old(self)@.next_seq + futures@.len() <= usize::MAX,
            forall|i: int|
                0 <= i < futures@.len() ==> clock::is_instant(#[trigger] futures@[i].ts_bucket),
        ensures
            final(self)@.well_formed(),
            forall|gauge: Gauge| #[trigger]
                measures_as(*measure, gauge) ==> final(self)@ == old(self)@.replay(
                    futures@.subrange(start as int, futures@.len() as int),
                    spot@.subrange(start as int, futures@.len() as int),
                    gauge,
                    mode,
                    threshold,
                ),
    {
        let ghost before = self@;
        let n: usize = futures.len();
        let mut i: usize = start;
        proof {
            assert(futures@.subrange(start as int, i as int) =~= Seq::empty());
        }
        while i < n
            invariant
                start <= i <= n,
                n == futures@.len(),
                n == spot@.len(),
                can_measure(*measure),
                self@.well_formed(),
                self@.next_seq == before.next_seq + (i - start),
                before.next_seq + n <= usize::MAX,
                forall|j: int|
                    0 <= j < n ==> clock::is_instant(#[trigger] futures@[j].ts_bucket),
                forall|gauge: Gauge| #[trigger]
                    measures_as(*measure, gauge) ==> self@ == before.replay(
                        futures@.subrange(start as int, i as int),
                        spot@.subrange(start as int, i as int),
                        gauge,
                        mode,
                        threshold,
                    ),
            decreases n - i,
        {
            let ghost held = self@;
            let legs: Vec<Leg> = self.append_pair(&futures[i], &spot[i]);
            let ghost appended = self@;
            proof {
                let taken = held.taken_in(derive_minute(futures@[i as int], spot@[i as int], held.next_seq));
                assert forall|j: int| 0 <= j < legs@.len() implies (
                #[trigger] legs@[j]).idx_2 < appended.minutes.len() && clock::is_instant(
                    legs@[j].first.ts_bucket,
                ) && clock::is_instant(legs@[j].second.ts_bucket) by {
                    lemma_new_leg(taken, legs@[j]);
                }
            }
            self.settle_all(&legs, mode, threshold, measure);
            proof {
                let f = futures@.subrange(start as int, i + 1);
                let s = spot@.subrange(start as int, i + 1);
                assert(f.drop_last() =~= futures@.subrange(start as int, i as int));
                assert(s.drop_last() =~= spot@.subrange(start as int, i as int));
            }
            i += 1;
        }
    }

    /// Runs the machine over the common end of two histories, from the start. `measure`
    /// is asked for what is measured of a leg, and is handed the detrended prices and the
    /// standardised deltas up to its end.
    pub fn rebuild<F: Fn(&Leg, &[Option<Key>], &[Option<Key>]) -> LegMeasure>(
        &mut self,
        history_futures: &[FuturesMinute],
        history_spot: &[SpotMinute],
        mode: DivergenceSigTestMode,
        threshold: Key,
        measure: F,
    )
        requires
            can_measure(measure),
            forall|i: int|
                0 <= i < history_futures@.len() ==> clock::is_instant(
                    #[trigger] history_futures@[i].ts_bucket,
                ),
        ensures
            final(self)@.well_formed(),
            forall|gauge: Gauge| #[trigger]
                measures_as(measure, gauge) ==> final(self)@ == MachineState::rebuilt(
                    history_futures@,
                    history_spot@,
                    gauge,
                    mode,
                    threshold,
                ),
    {
        *self = DivergenceEventStateMachine::default();
        let (futures, spot) = aligned_event_histories(history_futures, history_spot);
        let n: usize = futures.len();
        self.follow(futures, spot, 0, mode, threshold, &measure);
        proof {
            assert(futures@.subrange(0, n as int) =~= futures@);
            assert(spot@.subrange(0, n as int) =~= spot@);
        }
        self.finish(if n == 0 {
            None
        } else {
            Some(futures[n - 1].ts_bucket)
        });
    }

    /// Brings the machine up to the common end of two histories: with the minutes after
    /// its newest where it can go on, else from the start.
    pub fn sync<F: Fn(&Leg, &[Option<Key>], &[Option<Key>]) -> LegMeasure>(
        &mut self,
        history_futures: &[FuturesMinute],
        history_spot: &[SpotMinute],
        mode: DivergenceSigTestMode,
        threshold: Key,
        measure: F,
    )
        requires
            old(self)@.well_formed(),
            old(self)@.next_seq + history_futures@.len() <= usize::MAX,
            can_measure(measure),
            forall|i: int|
                0 <= i < history_futures@.len() ==> clock::is_instant(
                    #[trigger] history_futures@[i].ts_bucket,
                ),
        ensures
            final(self)@.well_formed(),
            forall|gauge: Gauge| #[trigger]
                measures_as(measure, gauge) ==> final(self)@ == old(self)@.synced(
                    history_futures@,
                    history_spot@,
                    gauge,
                    mode,
                    threshold,
                ),
    {
        let start: usize = self.begin_sync(history_futures, history_spot, mode);
        let (futures, spot) = aligned_event_histories(history_futures, history_spot);
        let n: usize = futures.len();
        self.follow(futures, spot, start, mode, threshold, &measure);
        self.finish(if n == 0 {
            None
        } else {
            Some(futures[n - 1].ts_bucket)
        });
    }
}

/// A leg that a minute completes lies within the minutes held.
proof fn lemma_new_leg(taken: MachineState, leg: Leg)
    requires
        taken.minutes.len() <= usize::MAX,
        forall|i: int|
            0 <= i < taken.minutes.len() ==> clock::is_instant(#[trigger] taken.minutes[i].ts_bucket),
        (as_run(taken.leg_found(true)) + as_run(taken.leg_found(false))).contains(leg),
    ensures
        leg.idx_2 < taken.minutes.len(),
        clock::is_instant(leg.first.ts_bucket),
        clock::is_instant(leg.second.ts_bucket),
{
}

impl MachineState {
    /// The state after a run of legs was measured and judged.
    pub open spec fn settle_all(
        self,
        legs: Seq<Leg>,
        gauge: Gauge,
        mode: DivergenceSigTestMode,
        threshold: Key,
    ) -> MachineState
        decreases legs.len(),
    {
        if legs.len() == 0 {
            self
        } else {
            self.settle_all(legs.drop_last(), gauge, mode, threshold).settle(
                legs.last(),
                measured(gauge, legs.last(), self.minutes),
                mode,
                threshold,
            )
        }
    }

    /// The state after one more pair of minutes with its legs measured and judged.
    pub open spec fn step(
        self,
        futures: FuturesMinute,
        spot: SpotMinute,
        gauge: Gauge,
        mode: DivergenceSigTestMode,
        threshold: Key,
    ) -> MachineState {
        self.append(futures, spot).settle_all(
            self.new_legs(futures, spot),
            gauge,
            mode,
            threshold,
        )
    }

    /// The state after a run of pairs of minutes.
    pub open spec fn replay(
        self,
        futures: Seq<FuturesMinute>,
        spot: Seq<SpotMinute>,
        gauge: Gauge,
        mode: DivergenceSigTestMode,
        threshold: Key,
    ) -> MachineState
        decreases futures.len(),
    {
        if futures.len() == 0 {
            self
        } else {
            self.replay(futures.drop_last(), spot.drop_last(), gauge, mode, threshold).step(
                futures.last(),
                spot.last(),
                gauge,
                mode,
                threshold,
            )
        }
    }

    /// The state that running the machine over the common end of two histories leaves.
    pub open spec fn rebuilt(
        futures: Seq<FuturesMinute>,
        spot: Seq<SpotMinute>,
        gauge: Gauge,
        mode: DivergenceSigTestMode,
        threshold: Key,
    ) -> MachineState {
        let n = history::shorter(futures.len(), spot.len());
        let f = history::tail(futures, n);
        fresh().replay(f, history::tail(spot, n), gauge, mode, threshold).ending_at(
            if n == 0 {
                None
            } else {
                Some(f.last().ts_bucket)
            },
        )
    }

    /// The state after the machine has been brought up to the common end of two histories.
    pub open spec fn synced(
        self,
        futures: Seq<FuturesMinute>,
        spot: Seq<SpotMinute>,
        gauge: Gauge,
        mode: DivergenceSigTestMode,
        threshold: Key,
    ) -> MachineState {
        let (from, start) = self.sync_from(futures, spot, mode);
        let n = history::shorter(futures.len(), spot.len());
        let f = history::tail(futures, n);
        from.replay(
            f.subrange(start, n),
            history::tail(spot, n).subrange(start, n),
            gauge,
            mode,
            threshold,
        ).ending_at(
            if n == 0 {
                None
            } else {
                Some(f.last().ts_bucket)
            },
        )
    }
}

/// Each minute starts at least a minute after the one before it.
pub open spec fn minute_steps(futures: Seq<FuturesMinute>) -> bool {
    forall|i: int, j: int|
        0 <= i <= j < futures.len() ==> (#[trigger] futures[j]).ts_bucket - (
        #[trigger] futures[i]).ts_bucket >= (j - i) * MINUTE_US
}

/// Whether the pivots of a candidate were confirmed in time: no minute is missing
/// between a pivot and the minute that confirms it.
pub open spec fn on_time(candidate: DivergenceCandidate, minutes: Seq<DerivedMinute>) -> bool {
    &&& minutes[candidate.confirm_i1 as int].ts_bucket == candidate.leg.first.ts_bucket + PIVOT_K
        * MINUTE_US
    &&& minutes[candidate.confirm_i2 as int].ts_bucket == candidate.leg.second.ts_bucket + PIVOT_K
        * MINUTE_US
}

/// Whether the pivots of all candidates were confirmed in time.
pub open spec fn all_on_time(
    candidates: Seq<DivergenceCandidate>,
    minutes: Seq<DerivedMinute>,
) -> bool {
    forall|i: int| 0 <= i < candidates.len() ==> on_time(#[trigger] candidates[i], minutes)
}

/// The events of one side.
pub open spec fn side_found(events: Seq<CachedEvent>, high: bool) -> Seq<DivergenceEventData>
    decreases events.len(),
{
    if events.len() == 0 {
        Seq::empty()
    } else {
        let rest = side_found(events.drop_last(), high);
        if events.last().event.pivot_side_high == high {
            rest.push(events.last().event)
        } else {
            rest
        }
    }
}

/// The events of the legs between the first `pairs` pairs of neighbouring pivots.
pub open spec fn leg_events(
    minutes: Seq<DerivedMinute>,
    listed: Seq<int>,
    pairs: int,
    gauge: Gauge,
    mode: DivergenceSigTestMode,
    threshold: Key,
    high: bool,
) -> Seq<DivergenceEventData>
    decreases pairs,
{
    if pairs <= 0 {
        Seq::empty()
    } else {
        let rest = leg_events(minutes, listed, pairs - 1, gauge, mode, threshold, high);
        let leg = leg_between(minutes, listed[pairs - 1], listed[pairs], high);
        match leg_event(leg, measured(gauge, leg, minutes), mode, threshold) {
            Some(entry) => rest.push(entry.event),
            None => rest,
        }
    }
}

/// The events of the legs of one side of a history.
pub open spec fn side_leg_events(
    minutes: Seq<DerivedMinute>,
    gauge: Gauge,
    mode: DivergenceSigTestMode,
    threshold: Key,
    high: bool,
) -> Seq<DivergenceEventData> {
    let listed = side_pivots(minutes, high);
    leg_events(minutes, listed, listed.len() - 1, gauge, mode, threshold, high)
}

spec fn from_zero(minutes: Seq<DerivedMinute>) -> bool {
    forall|i: int| 0 <= i < minutes.len() ==> #[trigger] minutes[i].seq == i
}

spec fn knows_side(
    state: MachineState,
    minutes: Seq<DerivedMinute>,
    gauge: Gauge,
    mode: DivergenceSigTestMode,
    threshold: Key,
    high: bool,
) -> bool {
    let listed = side_pivots(minutes, high);
    &&& state.last_pivot(high) == if listed.len() == 0 {
        None::<usize>
    } else {
        Some(listed.last() as usize)
    }
    &&& side_found(state.events, high) == side_leg_events(minutes, gauge, mode, threshold, high)
}

proof fn lemma_side_push(events: Seq<CachedEvent>, entry: CachedEvent, high: bool)
    ensures
        side_found(events.push(entry), high) == if entry.event.pivot_side_high == high {
            side_found(events, high).push(entry.event)
        } else {
            side_found(events, high)
        },
{
    assert(events.push(entry).drop_last() =~= events);
}

/// Judging a leg adds its event to its side and nothing to the other.
proof fn lemma_settle_side(
    state: MachineState,
    leg: Leg,
    m: LegMeasure,
    mode: DivergenceSigTestMode,
    threshold: Key,
    high: bool,
)
    ensures
        side_found(state.settle(leg, m, mode, threshold).events, high) == match leg_event(
            leg,
            m,
            mode,
            threshold,
        ) {
            Some(entry) => if leg.high == high {
                side_found(state.events, high).push(entry.event)
            } else {
                side_found(state.events, high)
            },
            None => side_found(state.events, high),
        },
{
    match leg_event(leg, m, mode, threshold) {
        Some(entry) => {
            lemma_side_push(state.events, entry, high);
        },
        None => {},
    }
}

/// What judging the legs of one minute does to a side.
proof fn lemma_settle_all_side(
    state: MachineState,
    highs: Option<Leg>,
    lows: Option<Leg>,
    gauge: Gauge,
    mode: DivergenceSigTestMode,
    threshold: Key,
    high: bool,
)
    requires
        highs matches Some(leg) ==> leg.high,
        lows matches Some(leg) ==> !leg.high,
    ensures
        ({
            let after = state.settle_all(as_run(highs) + as_run(lows), gauge, mode, threshold);
            let own = if high {
                highs
            } else {
                lows
            };
            &&& after.minutes == state.minutes
            &&& after.last_high == state.last_high
            &&& after.last_low == state.last_low
            &&& after.last_ts == state.last_ts
            &&& after.next_seq == state.next_seq
            &&& side_found(after.events, high) == match own {
                Some(leg) => match leg_event(
                    leg,
                    measured(gauge, leg, state.minutes),
                    mode,
                    threshold,
                ) {
                    Some(entry) => side_found(state.events, high).push(entry.event),
                    None => side_found(state.events, high),
                },
                None => side_found(state.events, high),
            }
        }),
{
    let legs = as_run(highs) + as_run(lows);
    reveal_with_fuel(MachineState::settle_all, 3);
    match (highs, lows) {
        (Some(a), Some(b)) => {
            assert(legs.drop_last() =~= seq![a]);
            assert(seq![a].drop_last() =~= Seq::empty());
            lemma_settle_side(state, a, measured(gauge, a, state.minutes), mode, threshold, high);
            lemma_settle_side(
                state.settle(a, measured(gauge, a, state.minutes), mode, threshold),
                b,
                measured(gauge, b, state.minutes),
                mode,
                threshold,
                high,
            );
            assert(state.settle_all(Seq::empty(), gauge, mode, threshold) == state);
            assert(state.settle_all(seq![a], gauge, mode, threshold) == state.settle(
                a,
                measured(gauge, a, state.minutes),
                mode,
                threshold,
            ));
        },
        (Some(a), None) => {
            assert(legs =~= seq![a]);
            assert(legs.drop_last() =~= Seq::empty());
            lemma_settle_side(state, a, measured(gauge, a, state.minutes), mode, threshold, high);
        },
        (None, Some(b)) => {
            assert(legs =~= seq![b]);
            assert(legs.drop_last() =~= Seq::empty());
            lemma_settle_side(state, b, measured(gauge, b, state.minutes), mode, threshold, high);
        },
        (None, None) => {
            assert(legs =~= Seq::empty());
        },
    }
}

/// Legs between minutes that are there already do not change.
proof fn lemma_old_legs(
    minutes: Seq<DerivedMinute>,
    minute: DerivedMinute,
    a: Seq<int>,
    b: Seq<int>,
    pairs: int,
    gauge: Gauge,
    mode: DivergenceSigTestMode,
    threshold: Key,
    high: bool,
)
    requires
        pairs < a.len(),
        pairs < b.len(),
        forall|i: int| 0 <= i <= pairs ==> #[trigger] a[i] == b[i],
        forall|i: int| 0 <= i <= pairs ==> 0 <= #[trigger] a[i] < minutes.len(),
        minutes.len() <= usize::MAX,
    ensures
        leg_events(minutes.push(minute), a, pairs, gauge, mode, threshold, high) == leg_events(
            minutes,
            b,
            pairs,
            gauge,
            mode,
            threshold,
            high,
        ),
    decreases pairs,
{
    if pairs > 0 {
        lemma_old_legs(minutes, minute, a, b, pairs - 1, gauge, mode, threshold, high);
        assert(a[pairs - 1] == b[pairs - 1]);
        assert(a[pairs] == b[pairs]);
        assert(minutes.push(minute).take(a[pairs] + 1) =~= minutes.take(a[pairs] + 1));
    }
}

#[verifier::rlimit(50)]
#[verifier::spinoff_prover]
proof fn lemma_step_side(
    state: MachineState,
    futures: FuturesMinute,
    spot: SpotMinute,
    gauge: Gauge,
    mode: DivergenceSigTestMode,
    threshold: Key,
    high: bool,
)
    requires
        from_zero(state.minutes),
        state.minutes.len() == state.next_seq,
        state.minutes.len() < usize::MAX,
        knows_side(state, state.minutes, gauge, mode, threshold, high),
    ensures
        knows_side(
            state.step(futures, spot, gauge, mode, threshold),
            state.minutes.push(derive_minute(futures, spot, state.next_seq)),
            gauge,
            mode,
            threshold,
            high,
        ),
{
    let minutes = state.minutes;
    let n = minutes.len() as int;
    let k = PIVOT_K as int;
    let minute = derive_minute(futures, spot, state.next_seq);
    let more = minutes.push(minute);
    let taken = state.taken_in(minute);
    let listed = side_pivots(minutes, high);
    let now = side_pivots(more, high);
    let v = extremes(minutes, high);
    assert(extremes(more, high) =~= v.push(extreme(minute, high)));
    pivots::law_pivots_grow(v, extreme(minute, high), k, high);
    lemma_places(minutes, high);
    let highs = taken.leg_found(true);
    let lows = taken.leg_found(false);
    let appended = state.append(futures, spot);
    lemma_settle_all_side(appended, highs, lows, gauge, mode, threshold, high);
    assert(appended.events == state.events);
    assert(appended.minutes == more);
    if taken.completes_pivot(high) {
        assert(now == listed.push(n - k));
        assert(more[n - k].seq == n - k);
        if listed.len() > 0 {
            let t1 = listed.last();
            assert(listed[listed.len() - 1] == t1);
            assert(more[0].seq == 0);
            assert(place_of(more, t1) == Some(t1));
            let leg = leg_between(more, t1, n - k, high);
            assert(taken.leg_found(high) == Some(leg));
            lemma_old_legs(
                minutes,
                minute,
                now,
                listed,
                listed.len() - 1,
                gauge,
                mode,
                threshold,
                high,
            );
            assert(now[now.len() - 2] == t1);
        } else {
            assert(taken.leg_found(high) is None);
            assert(now.len() == 1);
        }
    } else {
        assert(now == listed);
        assert(taken.leg_found(high) is None);
        if listed.len() > 0 {
            lemma_old_legs(
                minutes,
                minute,
                listed,
                listed,
                listed.len() - 1,
                gauge,
                mode,
                threshold,
                high,
            );
        }
    }
}

#[verifier::rlimit(50)]
#[verifier::spinoff_prover]
proof fn lemma_knows_sides(
    futures: Seq<FuturesMinute>,
    spot: Seq<SpotMinute>,
    gauge: Gauge,
    mode: DivergenceSigTestMode,
    threshold: Key,
)
    requires
        futures.len() == spot.len(),
        futures.len() < usize::MAX,
    ensures
        ({
            let state = fresh().replay(futures, spot, gauge, mode, threshold);
            let minutes = derived_minutes(futures, spot);
            &&& state.minutes == minutes
            &&& state.next_seq == futures.len()
            &&& state.last_ts is None
            &&& from_zero(minutes)
            &&& knows_side(state, minutes, gauge, mode, threshold, true)
            &&& knows_side(state, minutes, gauge, mode, threshold, false)
        }),
    decreases futures.len(),
{
    let minutes = derived_minutes(futures, spot);
    if futures.len() == 0 {
        assert(minutes =~= Seq::empty());
        assert(extremes(minutes, true) =~= Seq::empty());
        assert(extremes(minutes, false) =~= Seq::empty());
    } else {
        let f = futures.drop_last();
        let s = spot.drop_last();
        lemma_knows_sides(f, s, gauge, mode, threshold);
        let before = fresh().replay(f, s, gauge, mode, threshold);
        let minute = derive_minute(futures.last(), spot.last(), before.next_seq);
        assert(minutes =~= derived_minutes(f, s).push(minute));
        lemma_step_side(before, futures.last(), spot.last(), gauge, mode, threshold, true);
        lemma_step_side(before, futures.last(), spot.last(), gauge, mode, threshold, false);
        let taken = before.taken_in(minute);
        lemma_settle_all_side(
            before.append(futures.last(), spot.last()),
            taken.leg_found(true),
            taken.leg_found(false),
            gauge,
            mode,
            threshold,
            true,
        );
    }
}

/// Running the machine over two histories finds, on each side, the events of the
/// legs between neighbouring pivots that diverge, in order, each once.
pub proof fn law_rebuild_finds_every_event(
    futures: Seq<FuturesMinute>,
    spot: Seq<SpotMinute>,
    gauge: Gauge,
    mode: DivergenceSigTestMode,
    threshold: Key,
    high: bool,
)
    requires
        futures.len() < usize::MAX,
    ensures
        side_found(
            MachineState::rebuilt(futures, spot, gauge, mode, threshold).events,
            high,
        ) == side_leg_events(common_minutes(futures, spot), gauge, mode, threshold, high),
{
    let n = history::shorter(futures.len(), spot.len());
    lemma_knows_sides(
        history::tail(futures, n),
        history::tail(spot, n),
        gauge,
        mode,
        threshold,
    );
}

/// Where pivots are confirmed in time, the machine finds on each side what the
/// candidates of that side give, in the same order, given the same measures.
pub proof fn law_rebuild_matches_candidates(
    futures: Seq<FuturesMinute>,
    spot: Seq<SpotMinute>,
    gauge: Gauge,
    mode: DivergenceSigTestMode,
    threshold: Key,
    high: bool,
)
    requires
        futures.len() < usize::MAX,
        ({
            let minutes = common_minutes(futures, spot);
            all_on_time(gauged_candidates(minutes, gauge, mode, threshold, high), minutes)
        }),
    ensures
        ({
            let minutes = common_minutes(futures, spot);
            side_found(MachineState::rebuilt(futures, spot, gauge, mode, threshold).events, high)
                == gauged_candidates(minutes, gauge, mode, threshold, high).map_values(
                |candidate: DivergenceCandidate| candidate_event(candidate, minutes),
            )
        }),
{
    law_rebuild_finds_every_event(futures, spot, gauge, mode, threshold, high);
    let minutes = common_minutes(futures, spot);
    lemma_places(minutes, high);
    lemma_same_legs(
        minutes,
        side_pivots(minutes, high).len() - 1,
        gauge,
        mode,
        threshold,
        high,
    );
}

proof fn lemma_same_legs(
    minutes: Seq<DerivedMinute>,
    pairs: int,
    gauge: Gauge,
    mode: DivergenceSigTestMode,
    threshold: Key,
    high: bool,
)
    requires
        pairs < side_pivots(minutes, high).len(),
        minutes.len() <= usize::MAX,
        all_on_time(
            candidates_of(
                minutes,
                side_places(minutes, high),
                side_measures(minutes, gauge, high),
                pairs,
                mode,
                threshold,
                high,
            ),
            minutes,
        ),
    ensures
        leg_events(
            minutes,
            side_pivots(minutes, high),
            pairs,
            gauge,
            mode,
            threshold,
            high,
        ) == candidates_of(
            minutes,
            side_places(minutes, high),
            side_measures(minutes, gauge, high),
            pairs,
            mode,
            threshold,
            high,
        ).map_values(|candidate: DivergenceCandidate| candidate_event(candidate, minutes)),
    decreases pairs,
{
    let f = |candidate: DivergenceCandidate| candidate_event(candidate, minutes);
    let listed = side_pivots(minutes, high);
    let places = side_places(minutes, high);
    let measures = side_measures(minutes, gauge, high);
    let found = candidates_of(minutes, places, measures, pairs, mode, threshold, high);
    let events = leg_events(minutes, listed, pairs, gauge, mode, threshold, high);
    if pairs > 0 {
        lemma_places(minutes, high);
        let rest = candidates_of(minutes, places, measures, pairs - 1, mode, threshold, high);
        assert forall|i: int| 0 <= i < rest.len() implies on_time(#[trigger] rest[i], minutes) by {
            assert(rest[i] == found[i]);
        }
        lemma_same_legs(minutes, pairs - 1, gauge, mode, threshold, high);
        let i1 = listed[pairs - 1];
        let i2 = listed[pairs];
        assert(places[pairs - 1].0 == i1 && places[pairs - 1].1 == i1 + PIVOT_K);
        assert(places[pairs].0 == i2 && places[pairs].1 == i2 + PIVOT_K);
        assert(i1 < i2);
        let leg = leg_between(minutes, i1, i2, high);
        assert(measures[pairs - 1] == measured(gauge, leg, minutes));
        match verdict_on(leg, measured(gauge, leg, minutes), mode, threshold) {
            Some(verdict) => {
                let candidate = candidate_of(
                    minutes,
                    places,
                    pairs,
                    measures[pairs - 1],
                    mode,
                    threshold,
                    high,
                )->0;
                assert(found.last() == candidate);
                assert(on_time(found[found.len() - 1], minutes));
                assert(candidate_event(candidate, minutes) == dated_event(
                    leg,
                    measured(gauge, leg, minutes),
                    verdict,
                ));
                assert(rest.push(candidate).map_values(f) =~= rest.map_values(f).push(
                    candidate_event(candidate, minutes),
                ));
            },
            None => {},
        }
    } else {
        assert(found.map_values(f) =~= events);
    }
}

/// A candidate as the machine dates its event.
spec fn dated(candidate: DivergenceCandidate) -> DivergenceEventData {
    dated_event(candidate.leg, candidate.measure, candidate.verdict)
}

/// The candidate of a leg that a minute has just completed, if it diverges.
spec fn leg_candidate(
    leg: Leg,
    m: LegMeasure,
    mode: DivergenceSigTestMode,
    threshold: Key,
) -> Option<DivergenceCandidate> {
    match verdict_on(leg, m, mode, threshold) {
        Some(verdict) => Some(
            DivergenceCandidate {
                i1: leg.idx_1,
                i2: leg.idx_2,
                confirm_i1: (leg.idx_1 + PIVOT_K) as usize,
                confirm_i2: (leg.idx_2 + PIVOT_K) as usize,
                available_i: (leg.idx_2 + PIVOT_K) as usize,
                leg,
                measure: m,
                verdict,
            },
        ),
        None => None,
    }
}

/// The candidate of the leg that the newest minute completes on one side, if any.
spec fn new_candidate(
    taken: MachineState,
    gauge: Gauge,
    mode: DivergenceSigTestMode,
    threshold: Key,
    high: bool,
) -> Option<DivergenceCandidate> {
    match taken.leg_found(high) {
        Some(leg) => leg_candidate(leg, measured(gauge, leg, taken.minutes), mode, threshold),
        None => None,
    }
}

proof fn lemma_in_turn_within(candidates: Seq<DivergenceCandidate>)
    ensures
        forall|x: DivergenceCandidate| #[trigger]
            in_turn(candidates).contains(x) ==> candidates.contains(x),
{
    broadcast use vstd::seq_lib::group_to_multiset_ensures;

    law_in_turn(candidates);
    assert forall|x: DivergenceCandidate| #[trigger]
        in_turn(candidates).contains(x) implies candidates.contains(x) by {
        assert(in_turn(candidates).to_multiset().count(x) > 0);
        assert(candidates.to_multiset().count(x) > 0);
    }
}

/// A candidate that none comes after goes last.
proof fn lemma_in_turn_last(candidates: Seq<DivergenceCandidate>, candidate: DivergenceCandidate)
    requires
        forall|i: int|
            0 <= i < candidates.len() ==> no_later(#[trigger] candidates[i], candidate),
    ensures
        in_turn(candidates.push(candidate)) == in_turn(candidates).push(candidate),
{
    let sorted = in_turn(candidates);
    assert(candidates.push(candidate).drop_last() =~= candidates);
    if sorted.len() > 0 {
        lemma_in_turn_within(candidates);
        assert(sorted.contains(sorted.last()));
        assert(candidates.contains(sorted.last()));
        let i = choose|i: int| 0 <= i < candidates.len() && candidates[i] == sorted.last();
        assert(no_later(candidates[i], candidate));
    }
}

/// A candidate that comes after all others goes last, wherever it was given.
proof fn lemma_in_turn_latest(
    firsts: Seq<DivergenceCandidate>,
    candidate: DivergenceCandidate,
    seconds: Seq<DivergenceCandidate>,
)
    requires
        forall|i: int| 0 <= i < firsts.len() ==> no_later(#[trigger] firsts[i], candidate),
        forall|i: int| 0 <= i < seconds.len() ==> !no_later(candidate, #[trigger] seconds[i]),
    ensures
        in_turn(firsts.push(candidate) + seconds) == in_turn(firsts + seconds).push(candidate),
    decreases seconds.len(),
{
    if seconds.len() == 0 {
        assert(firsts.push(candidate) + seconds =~= firsts.push(candidate));
        assert(firsts + seconds =~= firsts);
        lemma_in_turn_last(firsts, candidate);
    } else {
        let rest = seconds.drop_last();
        let l = seconds.last();
        lemma_in_turn_latest(firsts, candidate, rest);
        assert((firsts.push(candidate) + seconds).drop_last() =~= firsts.push(candidate) + rest);
        assert((firsts + seconds).drop_last() =~= firsts + rest);
        assert((firsts.push(candidate) + seconds).last() == l);
        assert((firsts + seconds).last() == l);
        let sorted = in_turn(firsts + rest);
        assert(!no_later(candidate, seconds[seconds.len() - 1]));
        assert(sorted.push(candidate).drop_last() =~= sorted);
        assert(put_in(sorted.push(candidate), l) == put_in(sorted, l).push(candidate));
    }
}

/// Candidates between minutes that are there already do not change.
proof fn lemma_old_candidates(
    minutes: Seq<DerivedMinute>,
    minute: DerivedMinute,
    pairs: int,
    gauge: Gauge,
    mode: DivergenceSigTestMode,
    threshold: Key,
    high: bool,
)
    requires
        pairs < side_pivots(minutes, high).len(),
        minutes.len() < usize::MAX,
    ensures
        candidates_of(
            minutes.push(minute),
            side_places(minutes.push(minute), high),
            side_measures(minutes.push(minute), gauge, high),
            pairs,
            mode,
            threshold,
            high,
        ) == candidates_of(
            minutes,
            side_places(minutes, high),
            side_measures(minutes, gauge, high),
            pairs,
            mode,
            threshold,
            high,
        ),
        forall|i: int|
            #![trigger candidates_of(
                minutes,
                side_places(minutes, high),
                side_measures(minutes, gauge, high),
                pairs,
                mode,
                threshold,
                high,
            )[i]]
            0 <= i < candidates_of(
                minutes,
                side_places(minutes, high),
                side_measures(minutes, gauge, high),
                pairs,
                mode,
                threshold,
                high,
            ).len() ==> candidates_of(
                minutes,
                side_places(minutes, high),
                side_measures(minutes, gauge, high),
                pairs,
                mode,
                threshold,
                high,
            )[i].available_i < minutes.len(),
    decreases pairs,
{
    if pairs > 0 {
        lemma_old_candidates(minutes, minute, pairs - 1, gauge, mode, threshold, high);
        let more = minutes.push(minute);
        let listed = side_pivots(minutes, high);
        let now = side_pivots(more, high);
        let v = extremes(minutes, high);
        assert(extremes(more, high) =~= v.push(extreme(minute, high)));
        pivots::law_pivots_grow(v, extreme(minute, high), PIVOT_K as int, high);
        lemma_places(minutes, high);
        lemma_places(more, high);
        assert(now[pairs - 1] == listed[pairs - 1]);
        assert(now[pairs] == listed[pairs]);
        assert(side_places(more, high)[pairs - 1] == side_places(minutes, high)[pairs - 1]);
        assert(side_places(more, high)[pairs] == side_places(minutes, high)[pairs]);
        assert(more.take(listed[pairs] + 1) =~= minutes.take(listed[pairs] + 1));
        assert(side_measures(more, gauge, high)[pairs - 1] == side_measures(minutes, gauge, high)[
        pairs - 1]);
    }
}

/// What one more minute adds to the candidates of a side.
#[verifier::rlimit(50)]
#[verifier::spinoff_prover]
proof fn lemma_step_candidates(
    state: MachineState,
    minute: DerivedMinute,
    gauge: Gauge,
    mode: DivergenceSigTestMode,
    threshold: Key,
    high: bool,
)
    requires
        from_zero(state.minutes),
        minute.seq == state.minutes.len(),
        state.minutes.len() < usize::MAX,
        knows_side(state, state.minutes, gauge, mode, threshold, high),
    ensures
        gauged_candidates(state.minutes.push(minute), gauge, mode, threshold, high)
            == gauged_candidates(state.minutes, gauge, mode, threshold, high) + as_run(
            new_candidate(state.taken_in(minute), gauge, mode, threshold, high),
        ),
        new_candidate(state.taken_in(minute), gauge, mode, threshold, high) matches Some(c)
            ==> c.available_i == state.minutes.len() && c.i2 == state.minutes.len() - PIVOT_K,
        forall|i: int|
            0 <= i < gauged_candidates(state.minutes, gauge, mode, threshold, high).len() ==> (
            #[trigger] gauged_candidates(
                state.minutes,
                gauge,
                mode,
                threshold,
                high,
            )[i]).available_i < state.minutes.len(),
{
    let minutes = state.minutes;
    let n = minutes.len() as int;
    let k = PIVOT_K as int;
    let more = minutes.push(minute);
    let taken = state.taken_in(minute);
    let listed = side_pivots(minutes, high);
    let now = side_pivots(more, high);
    let v = extremes(minutes, high);
    assert(extremes(more, high) =~= v.push(extreme(minute, high)));
    pivots::law_pivots_grow(v, extreme(minute, high), k, high);
    lemma_places(minutes, high);
    lemma_places(more, high);
    let before = gauged_candidates(minutes, gauge, mode, threshold, high);
    let after = gauged_candidates(more, gauge, mode, threshold, high);
    if listed.len() > 0 {
        lemma_old_candidates(minutes, minute, listed.len() - 1, gauge, mode, threshold, high);
    }
    if taken.completes_pivot(high) && listed.len() > 0 {
        let t1 = listed.last();
        assert(listed[listed.len() - 1] == t1);
        assert(more[0].seq == 0);
        assert(place_of(more, t1) == Some(t1));
        let leg = leg_between(more, t1, n - k, high);
        assert(taken.leg_found(high) == Some(leg));
        assert(now == listed.push(n - k));
        assert(now[now.len() - 2] == t1);
        assert(side_places(more, high)[now.len() - 2] == (t1, t1 + k));
        assert(side_places(more, high)[now.len() - 1] == (n - k, n));
        assert(side_measures(more, gauge, high)[now.len() - 2] == measured(gauge, leg, more));
        assert(after =~= before + as_run(new_candidate(taken, gauge, mode, threshold, high)));
    } else {
        assert(taken.leg_found(high) is None);
        assert(after =~= before);
        assert(after =~= before + as_run(new_candidate(taken, gauge, mode, threshold, high)));
    }
}

/// What judging the legs of one minute adds to the events.
proof fn lemma_settle_all_adds(
    state: MachineState,
    highs: Option<Leg>,
    lows: Option<Leg>,
    gauge: Gauge,
    mode: DivergenceSigTestMode,
    threshold: Key,
)
    ensures
        state.settle_all(as_run(highs) + as_run(lows), gauge, mode, threshold).events
            == state.events + as_run(
            match highs {
                Some(leg) => leg_event(
                    leg,
                    measured(gauge, leg, state.minutes),
                    mode,
                    threshold,
                ),
                None => None,
            },
        ) + as_run(
            match lows {
                Some(leg) => leg_event(
                    leg,
                    measured(gauge, leg, state.minutes),
                    mode,
                    threshold,
                ),
                None => None,
            },
        ),
{
    let legs = as_run(highs) + as_run(lows);
    reveal_with_fuel(MachineState::settle_all, 3);
    match (highs, lows) {
        (Some(a), Some(b)) => {
            assert(legs.drop_last() =~= seq![a]);
            assert(seq![a].drop_last() =~= Seq::empty());
        },
        (Some(a), None) => {
            assert(legs =~= seq![a]);
            assert(legs.drop_last() =~= Seq::empty());
        },
        (None, Some(b)) => {
            assert(legs =~= seq![b]);
            assert(legs.drop_last() =~= Seq::empty());
        },
        (None, None) => {
            assert(legs =~= Seq::empty());
        },
    }
}

/// Whether, of a high and a low candidate known from the same minute on, the high
/// one never starts later.
pub open spec fn highs_start_first(
    highs: Seq<DivergenceCandidate>,
    lows: Seq<DivergenceCandidate>,
) -> bool {
    forall|i: int, j: int|
        #![trigger highs[i], lows[j]]
        0 <= i < highs.len() && 0 <= j < lows.len() && highs[i].available_i == lows[j].available_i
            ==> highs[i].i1 <= lows[j].i1
}

/// Events without what the machine keeps beside them.
pub open spec fn bare_events(entries: Seq<CachedEvent>) -> Seq<DivergenceEventData> {
    entries.map_values(|entry: CachedEvent| entry.event)
}

/// One more minute adds to the machine's events what it adds to the candidates of
/// both sides in turn.
#[verifier::rlimit(50)]
#[verifier::spinoff_prover]
proof fn lemma_step_in_turn(
    entries: Seq<CachedEvent>,
    highs: Seq<DivergenceCandidate>,
    lows: Seq<DivergenceCandidate>,
    high: Option<DivergenceCandidate>,
    low: Option<DivergenceCandidate>,
    high_entry: Option<CachedEvent>,
    low_entry: Option<CachedEvent>,
    n: int,
)
    requires
        bare_events(entries) == in_turn(highs + lows).map_values(
            |candidate: DivergenceCandidate| dated(candidate),
        ),
        forall|i: int| 0 <= i < highs.len() ==> (#[trigger] highs[i]).available_i < n,
        forall|i: int| 0 <= i < lows.len() ==> (#[trigger] lows[i]).available_i < n,
        high matches Some(c) ==> c.available_i == n && c.i2 == n - PIVOT_K,
        low matches Some(c) ==> c.available_i == n && c.i2 == n - PIVOT_K,
        highs_start_first(highs + as_run(high), lows + as_run(low)),
        high is Some <==> high_entry is Some,
        low is Some <==> low_entry is Some,
        high matches Some(c) ==> high_entry->0.event == dated(c),
        low matches Some(c) ==> low_entry->0.event == dated(c),
    ensures
        bare_events(entries + as_run(high_entry) + as_run(low_entry)) == in_turn(
            (highs + as_run(high)) + (lows + as_run(low)),
        ).map_values(|candidate: DivergenceCandidate| dated(candidate)),
{
    let f = |candidate: DivergenceCandidate| dated(candidate);
    let g = |entry: CachedEvent| entry.event;
    let highs2 = highs + as_run(high);
    let lows2 = lows + as_run(low);
    let entries2 = entries + as_run(high_entry);
    // the high one
    assert(bare_events(entries2) == in_turn(highs2 + lows).map_values(f)) by {
        match high {
            Some(c) => {
                assert(highs2 =~= highs.push(c));
                lemma_in_turn_latest(highs, c, lows);
                assert(entries2 =~= entries.push(high_entry->0));
                assert(entries2.map_values(g) =~= entries.map_values(g).push(dated(c)));
                assert(in_turn(highs + lows).push(c).map_values(f) =~= in_turn(
                    highs + lows,
                ).map_values(f).push(dated(c)));
            },
            None => {
                assert(highs2 =~= highs);
                assert(entries2 =~= entries);
            },
        }
    }
    // the low one
    let entries3 = entries2 + as_run(low_entry);
    match low {
        Some(c) => {
            let both = highs2 + lows;
            assert(highs2 + lows2 =~= both.push(c));
            assert forall|i: int| 0 <= i < both.len() implies no_later(#[trigger] both[i], c) by {
                if i < highs2.len() {
                    assert(both[i] == highs2[i]);
                    assert(lows2[lows2.len() - 1] == c);
                    if i < highs.len() {
                        assert(highs2[i] == highs[i]);
                    } else {
                        assert(highs2[i] == high->0);
                    }
                } else {
                    assert(both[i] == lows[i - highs2.len()]);
                }
            }
            lemma_in_turn_last(both, c);
            assert(entries3 =~= entries2.push(low_entry->0));
            assert(entries3.map_values(g) =~= entries2.map_values(g).push(dated(c)));
            assert(in_turn(both).push(c).map_values(f) =~= in_turn(both).map_values(f).push(
                dated(c),
            ));
        },
        None => {
            assert(highs2 + lows2 =~= highs2 + lows);
            assert(entries3 =~= entries2);
        },
    }
}

/// The machine's events are those of the candidates of both sides in turn.
#[verifier::rlimit(50)]
#[verifier::spinoff_prover]
proof fn lemma_events_in_turn(
    futures: Seq<FuturesMinute>,
    spot: Seq<SpotMinute>,
    gauge: Gauge,
    mode: DivergenceSigTestMode,
    threshold: Key,
)
    requires
        futures.len() == spot.len(),
        futures.len() < usize::MAX,
        ({
            let minutes = derived_minutes(futures, spot);
            highs_start_first(
                gauged_candidates(minutes, gauge, mode, threshold, true),
                gauged_candidates(minutes, gauge, mode, threshold, false),
            )
        }),
    ensures
        ({
            let minutes = derived_minutes(futures, spot);
            bare_events(fresh().replay(futures, spot, gauge, mode, threshold).events) == in_turn(
                gauged_candidates(minutes, gauge, mode, threshold, true) + gauged_candidates(
                    minutes,
                    gauge,
                    mode,
                    threshold,
                    false,
                ),
            ).map_values(|candidate: DivergenceCandidate| dated(candidate))
        }),
    decreases futures.len(),
{
    let minutes = derived_minutes(futures, spot);
    let highs = gauged_candidates(minutes, gauge, mode, threshold, true);
    let lows = gauged_candidates(minutes, gauge, mode, threshold, false);
    if futures.len() == 0 {
        assert(minutes =~= Seq::empty());
        lemma_places(minutes, true);
        lemma_places(minutes, false);
        assert(side_pivots(minutes, true).len() == 0) by {
            if side_pivots(minutes, true).len() > 0 {
                assert(PIVOT_K <= side_pivots(minutes, true)[0]);
            }
        }
        assert(side_pivots(minutes, false).len() == 0) by {
            if side_pivots(minutes, false).len() > 0 {
                assert(PIVOT_K <= side_pivots(minutes, false)[0]);
            }
        }
        assert(highs + lows =~= Seq::empty());
        assert(in_turn(highs + lows) =~= Seq::empty());
    } else {
        let f = futures.drop_last();
        let s = spot.drop_last();
        lemma_knows_sides(f, s, gauge, mode, threshold);
        let before = fresh().replay(f, s, gauge, mode, threshold);
        let minute = derive_minute(futures.last(), spot.last(), before.next_seq);
        let old = derived_minutes(f, s);
        assert(minutes =~= old.push(minute));
        let taken = before.taken_in(minute);
        lemma_step_candidates(before, minute, gauge, mode, threshold, true);
        lemma_step_candidates(before, minute, gauge, mode, threshold, false);
        let old_highs = gauged_candidates(old, gauge, mode, threshold, true);
        let old_lows = gauged_candidates(old, gauge, mode, threshold, false);
        assert(highs_start_first(old_highs, old_lows)) by {
            assert forall|i: int, j: int|
                #![trigger old_highs[i], old_lows[j]]
                0 <= i < old_highs.len() && 0 <= j < old_lows.len() && old_highs[i].available_i
                    == old_lows[j].available_i implies old_highs[i].i1 <= old_lows[j].i1 by {
                assert(highs[i] == old_highs[i]);
                assert(lows[j] == old_lows[j]);
            }
        }
        lemma_events_in_turn(f, s, gauge, mode, threshold);
        let appended = before.append(futures.last(), spot.last());
        let found_high = taken.leg_found(true);
        let found_low = taken.leg_found(false);
        lemma_settle_all_adds(appended, found_high, found_low, gauge, mode, threshold);
        assert(appended.events == before.events);
        assert(appended.minutes == taken.minutes);
        lemma_step_in_turn(
            before.events,
            old_highs,
            old_lows,
            new_candidate(taken, gauge, mode, threshold, true),
            new_candidate(taken, gauge, mode, threshold, false),
            match found_high {
                Some(leg) => leg_event(leg, measured(gauge, leg, taken.minutes), mode, threshold),
                None => None,
            },
            match found_low {
                Some(leg) => leg_event(leg, measured(gauge, leg, taken.minutes), mode, threshold),
                None => None,
            },
            old.len() as int,
        );
    }
}

/// A candidate is known from the minute on that confirms its second pivot.
proof fn lemma_available_upto(
    minutes: Seq<DerivedMinute>,
    pairs: int,
    gauge: Gauge,
    mode: DivergenceSigTestMode,
    threshold: Key,
    high: bool,
)
    requires
        pairs < side_pivots(minutes, high).len(),
        minutes.len() <= usize::MAX,
    ensures
        ({
            let found = candidates_of(
                minutes,
                side_places(minutes, high),
                side_measures(minutes, gauge, high),
                pairs,
                mode,
                threshold,
                high,
            );
            forall|i: int|
                0 <= i < found.len() ==> (#[trigger] found[i]).available_i == found[i].confirm_i2
        }),
    decreases pairs,
{
    if pairs > 0 {
        lemma_available_upto(minutes, pairs - 1, gauge, mode, threshold, high);
        lemma_places(minutes, high);
        let listed = side_pivots(minutes, high);
        assert(listed[pairs - 1] < listed[pairs]);
        assert(side_places(minutes, high)[pairs - 1].1 == listed[pairs - 1] + PIVOT_K);
        assert(side_places(minutes, high)[pairs].1 == listed[pairs] + PIVOT_K);
    }
}

proof fn lemma_available(
    minutes: Seq<DerivedMinute>,
    gauge: Gauge,
    mode: DivergenceSigTestMode,
    threshold: Key,
    high: bool,
)
    requires
        minutes.len() <= usize::MAX,
    ensures
        ({
            let found = gauged_candidates(minutes, gauge, mode, threshold, high);
            forall|i: int|
                0 <= i < found.len() ==> (#[trigger] found[i]).available_i == found[i].confirm_i2
        }),
{
    lemma_places(minutes, high);
    lemma_available_upto(
        minutes,
        side_pivots(minutes, high).len() - 1,
        gauge,
        mode,
        threshold,
        high,
    );
}

/// Where pivots are confirmed in time and no low candidate that starts before a high
/// one becomes known with it, the machine and the single pass find the same events
/// in the same order, given the same measures. A history too short for the single
/// pass has to be one on which the machine finds nothing either.
pub proof fn law_rebuild_matches_direct(
    futures: Seq<FuturesMinute>,
    spot: Seq<SpotMinute>,
    gauge: Gauge,
    mode: DivergenceSigTestMode,
    threshold: Key,
)
    requires
        futures.len() < usize::MAX,
        ({
            let minutes = common_minutes(futures, spot);
            let highs = gauged_candidates(minutes, gauge, mode, threshold, true);
            let lows = gauged_candidates(minutes, gauge, mode, threshold, false);
            &&& all_on_time(highs, minutes)
            &&& all_on_time(lows, minutes)
            &&& highs_start_first(highs, lows)
            &&& minutes.len() < MIN_HISTORY_MINUTES ==> highs.len() == 0 && lows.len() == 0
        }),
    ensures
        bare_events(MachineState::rebuilt(futures, spot, gauge, mode, threshold).events)
            == all_events(futures, spot, gauge, mode, threshold),
{
    let n = history::shorter(futures.len(), spot.len());
    let minutes = common_minutes(futures, spot);
    let highs = gauged_candidates(minutes, gauge, mode, threshold, true);
    let lows = gauged_candidates(minutes, gauge, mode, threshold, false);
    lemma_events_in_turn(
        history::tail(futures, n),
        history::tail(spot, n),
        gauge,
        mode,
        threshold,
    );
    let sorted = in_turn(highs + lows);
    let f = |candidate: DivergenceCandidate| dated(candidate);
    let g = |candidate: DivergenceCandidate| candidate_event(candidate, minutes);
    if minutes.len() < MIN_HISTORY_MINUTES {
        assert(highs + lows =~= Seq::empty());
        assert(sorted =~= Seq::empty());
        assert(sorted.map_values(f) =~= Seq::empty());
    } else {
        lemma_in_turn_within(highs + lows);
        lemma_available(minutes, gauge, mode, threshold, true);
        lemma_available(minutes, gauge, mode, threshold, false);
        assert forall|i: int| 0 <= i < sorted.len() implies f(#[trigger] sorted[i]) == g(
            sorted[i],
        ) by {
            let c = sorted[i];
            assert(sorted.contains(c));
            assert((highs + lows).contains(c));
            let j = choose|j: int| 0 <= j < (highs + lows).len() && (highs + lows)[j] == c;
            if j < highs.len() {
                assert(highs[j] == c);
            } else {
                assert(lows[j - highs.len()] == c);
            }
            assert(on_time(c, minutes));
            assert(c.available_i == c.confirm_i2);
        }
        assert(sorted.map_values(f) =~= sorted.map_values(g));
    }
}

proof fn lemma_settle_ending(
    state: MachineState,
    last_ts: Option<i64>,
    legs: Seq<Leg>,
    gauge: Gauge,
    mode: DivergenceSigTestMode,
    threshold: Key,
)
    ensures
        state.ending_at(last_ts).settle_all(legs, gauge, mode, threshold) == state.settle_all(
            legs,
            gauge,
            mode,
            threshold,
        ).ending_at(last_ts),
    decreases legs.len(),
{
    if legs.len() > 0 {
        lemma_settle_ending(state, last_ts, legs.drop_last(), gauge, mode, threshold);
    }
}

/// Which minute the machine takes for its newest does not matter to what it takes in.
proof fn lemma_replay_ending(
    state: MachineState,
    last_ts: Option<i64>,
    futures: Seq<FuturesMinute>,
    spot: Seq<SpotMinute>,
    gauge: Gauge,
    mode: DivergenceSigTestMode,
    threshold: Key,
)
    requires
        futures.len() == spot.len(),
    ensures
        state.ending_at(last_ts).replay(futures, spot, gauge, mode, threshold) == state.replay(
            futures,
            spot,
            gauge,
            mode,
            threshold,
        ).ending_at(last_ts),
    decreases futures.len(),
{
    if futures.len() > 0 {
        let f = futures.drop_last();
        let s = spot.drop_last();
        lemma_replay_ending(state, last_ts, f, s, gauge, mode, threshold);
        let before = state.replay(f, s, gauge, mode, threshold);
        let taken = before.taken_in(
            derive_minute(futures.last(), spot.last(), before.next_seq),
        );
        let taken_end = before.ending_at(last_ts).taken_in(
            derive_minute(futures.last(), spot.last(), before.next_seq),
        );
        assert(taken_end == taken.ending_at(last_ts));
        assert(taken_end.leg_found(true) == taken.leg_found(true));
        assert(taken_end.leg_found(false) == taken.leg_found(false));
        assert(before.ending_at(last_ts).append(futures.last(), spot.last()) == before.append(
            futures.last(),
            spot.last(),
        ).ending_at(last_ts));
        lemma_settle_ending(
            before.append(futures.last(), spot.last()),
            last_ts,
            before.new_legs(futures.last(), spot.last()),
            gauge,
            mode,
            threshold,
        );
    }
}

/// Taking in two runs one after the other is taking in the whole run.
#[verifier::rlimit(50)]
#[verifier::spinoff_prover]
proof fn lemma_replay_split(
    state: MachineState,
    futures: Seq<FuturesMinute>,
    spot: Seq<SpotMinute>,
    gauge: Gauge,
    mode: DivergenceSigTestMode,
    threshold: Key,
    k: int,
)
    requires
        futures.len() == spot.len(),
        0 <= k <= futures.len(),
    ensures
        ({
            let n = futures.len() as int;
            state.replay(futures, spot, gauge, mode, threshold) == state.replay(
                futures.take(k),
                spot.take(k),
                gauge,
                mode,
                threshold,
            ).replay(futures.subrange(k, n), spot.subrange(k, n), gauge, mode, threshold)
        }),
    decreases futures.len(),
{
    let n = futures.len() as int;
    if k == n {
        assert(futures.take(k) =~= futures);
        assert(spot.take(k) =~= spot);
    } else {
        lemma_replay_split(
            state,
            futures.drop_last(),
            spot.drop_last(),
            gauge,
            mode,
            threshold,
            k,
        );
        assert(futures.drop_last().take(k) =~= futures.take(k));
        assert(spot.drop_last().take(k) =~= spot.take(k));
        assert(futures.drop_last().subrange(k, n - 1) =~= futures.subrange(k, n).drop_last());
        assert(spot.drop_last().subrange(k, n - 1) =~= spot.subrange(k, n).drop_last());
    }
}

proof fn lemma_settle_adds(
    state: MachineState,
    earlier: Seq<CachedEvent>,
    legs: Seq<Leg>,
    gauge: Gauge,
    mode: DivergenceSigTestMode,
    threshold: Key,
)
    ensures
        ({
            let settled = state.settle_all(legs, gauge, mode, threshold);
            state.holding(earlier + state.events).settle_all(legs, gauge, mode, threshold)
                == settled.holding(earlier + settled.events)
        }),
        state.settle_all(legs, gauge, mode, threshold).minutes == state.minutes,
    decreases legs.len(),
{
    if legs.len() > 0 {
        lemma_settle_adds(state, earlier, legs.drop_last(), gauge, mode, threshold);
        let settled = state.settle_all(legs.drop_last(), gauge, mode, threshold);
        let m = measured(gauge, legs.last(), state.minutes);
        match leg_event(legs.last(), m, mode, threshold) {
            Some(event) => {
                assert((earlier + settled.events).push(event) =~= earlier + settled.events.push(
                    event,
                ));
            },
            None => {},
        }
    }
}

/// Which events the machine holds does not matter to what it finds.
proof fn lemma_replay_adds(
    state: MachineState,
    earlier: Seq<CachedEvent>,
    futures: Seq<FuturesMinute>,
    spot: Seq<SpotMinute>,
    gauge: Gauge,
    mode: DivergenceSigTestMode,
    threshold: Key,
)
    requires
        futures.len() == spot.len(),
    ensures
        ({
            let replayed = state.replay(futures, spot, gauge, mode, threshold);
            state.holding(earlier + state.events).replay(futures, spot, gauge, mode, threshold)
                == replayed.holding(earlier + replayed.events)
        }),
    decreases futures.len(),
{
    if futures.len() > 0 {
        let f = futures.drop_last();
        let s = spot.drop_last();
        lemma_replay_adds(state, earlier, f, s, gauge, mode, threshold);
        let before = state.replay(f, s, gauge, mode, threshold);
        let more = before.holding(earlier + before.events);
        let minute = derive_minute(futures.last(), spot.last(), before.next_seq);
        let taken = before.taken_in(minute);
        let taken_more = more.taken_in(minute);
        assert(taken_more.leg_found(true) == taken.leg_found(true));
        assert(taken_more.leg_found(false) == taken.leg_found(false));
        let appended = before.append(futures.last(), spot.last());
        assert(more.append(futures.last(), spot.last()) == appended.holding(
            earlier + appended.events,
        ));
        lemma_settle_adds(
            appended,
            earlier,
            before.new_legs(futures.last(), spot.last()),
            gauge,
            mode,
            threshold,
        );
    }
}

/// Bringing a machine that has seen the beginning of two histories up to the whole
/// of them leaves it as a run over the whole does, but for those of its oldest events
/// that need more history than there is: these are dropped.
#[verifier::rlimit(50)]
#[verifier::spinoff_prover]
pub proof fn law_sync_keeps_covered_events(
    futures: Seq<FuturesMinute>,
    spot: Seq<SpotMinute>,
    gauge: Gauge,
    mode: DivergenceSigTestMode,
    threshold: Key,
    k: int,
)
    requires
        futures.len() == spot.len(),
        0 <= k < futures.len() < usize::MAX,
        minute_steps(futures),
        forall|i: int| 0 <= i < futures.len() ==> clock::is_instant(#[trigger] futures[i].ts_bucket),
    ensures
        ({
            let before = MachineState::rebuilt(
                futures.take(k),
                spot.take(k),
                gauge,
                mode,
                threshold,
            );
            let whole = MachineState::rebuilt(futures, spot, gauge, mode, threshold);
            let kept = history::drop_while(before.events, needs_before(futures[0].ts_bucket));
            let found = whole.events.skip(before.events.len() as int);
            &&& whole.events == before.events + found
            &&& before.synced(futures, spot, gauge, mode, threshold) == whole.holding(kept + found)
        }),
{
    let n = futures.len() as int;
    let f = futures.take(k);
    let s = spot.take(k);
    let before = MachineState::rebuilt(f, s, gauge, mode, threshold);
    assert(history::tail(futures, n) =~= futures);
    assert(history::tail(spot, n) =~= spot);
    assert(history::tail(f, k) =~= f);
    assert(history::tail(s, k) =~= s);
    assert(futures.subrange(0, n) =~= futures);
    assert(spot.subrange(0, n) =~= spot);
    let whole = MachineState::rebuilt(futures, spot, gauge, mode, threshold);
    if k == 0 {
        assert(before.last_ts is None);
        assert(before.events =~= Seq::empty());
        assert(whole.events.skip(0) =~= whole.events);
        assert(Seq::<CachedEvent>::empty() + whole.events =~= whole.events);
    } else {
        let seen = futures[k - 1].ts_bucket;
        let first_ts = futures[0].ts_bucket;
        let plain = fresh().replay(f, s, gauge, mode, threshold);
        assert(before.last_ts == Some(seen));
        assert(futures[n - 1].ts_bucket - futures[k - 1].ts_bucket >= (n - k) * MINUTE_US);
        lemma_knows_sides(f, s, gauge, mode, threshold);
        assert(f[0] == futures[0]);
        assert(before.minutes[0].ts_bucket == first_ts);
        assert(!starts_before(first_ts)(before.minutes[0]));
        assert(history::drop_while(before.minutes, starts_before(first_ts)) == before.minutes);
        assert(before.minutes[0].seq == 0);
        lemma_places(before.minutes, true);
        lemma_places(before.minutes, false);
        assert(kept_pivot(before.minutes, before.last_high) == before.last_high) by {
            let listed = side_pivots(before.minutes, true);
            if listed.len() > 0 {
                assert(listed[listed.len() - 1] < k);
            }
        }
        assert(kept_pivot(before.minutes, before.last_low) == before.last_low) by {
            let listed = side_pivots(before.minutes, false);
            if listed.len() > 0 {
                assert(listed[listed.len() - 1] < k);
            }
        }
        let kept = history::drop_while(before.events, needs_before(first_ts));
        assert(before.pruned(first_ts) =~= before.holding(kept));
        let ts = history::stamps(futures);
        assert forall|i: int, j: int| 0 <= i <= j < ts.len() implies ts[i] <= ts[j] by {
            assert(futures[j].ts_bucket - futures[i].ts_bucket >= (j - i) * MINUTE_US);
        }
        assert forall|i: int| 0 <= i < k implies #[trigger] ts[i] < seen + MINUTE_US by {
            assert(futures[k - 1].ts_bucket - futures[i].ts_bucket >= (k - 1 - i) * MINUTE_US);
        }
        assert forall|i: int| k <= i < n implies #[trigger] ts[i] >= seen + MINUTE_US by {
            assert(futures[i].ts_bucket - futures[k - 1].ts_bucket >= (i - (k - 1)) * MINUTE_US);
        }
        history::lemma_first_at_or_after_is(ts, (seen + MINUTE_US) as i64, k);
        let later = futures.subrange(k, n);
        let later_spot = spot.subrange(k, n);
        lemma_replay_split(fresh(), futures, spot, gauge, mode, threshold, k);
        let bare = plain.holding(Seq::empty());
        let added = bare.replay(later, later_spot, gauge, mode, threshold);
        lemma_replay_adds(bare, plain.events, later, later_spot, gauge, mode, threshold);
        lemma_replay_adds(bare, kept, later, later_spot, gauge, mode, threshold);
        assert(plain.events + bare.events =~= plain.events);
        assert(kept + bare.events =~= kept);
        assert(plain.holding(plain.events) == plain);
        assert(whole.events =~= plain.events + added.events);
        assert(whole.events.skip(plain.events.len() as int) =~= added.events);
        lemma_replay_ending(
            plain.holding(kept),
            Some(seen),
            later,
            later_spot,
            gauge,
            mode,
            threshold,
        );
        assert(before.holding(kept) == plain.holding(kept).ending_at(Some(seen)));
    }
}

/// Bringing a machine that has seen the beginning of two histories up to the whole
/// of them leaves it as a run over the whole does, where its oldest event does not
/// need more history than there is.
pub proof fn law_sync_continues(
    futures: Seq<FuturesMinute>,
    spot: Seq<SpotMinute>,
    gauge: Gauge,
    mode: DivergenceSigTestMode,
    threshold: Key,
    k: int,
)
    requires
        futures.len() == spot.len(),
        0 <= k < futures.len() < usize::MAX,
        minute_steps(futures),
        forall|i: int| 0 <= i < futures.len() ==> clock::is_instant(#[trigger] futures[i].ts_bucket),
        ({
            let events = MachineState::rebuilt(
                futures.take(k),
                spot.take(k),
                gauge,
                mode,
                threshold,
            ).events;
            events.len() > 0 ==> !needs_before(futures[0].ts_bucket)(events[0])
        }),
    ensures
        MachineState::rebuilt(futures.take(k), spot.take(k), gauge, mode, threshold).synced(
            futures,
            spot,
            gauge,
            mode,
            threshold,
        ) == MachineState::rebuilt(futures, spot, gauge, mode, threshold),
{
    law_sync_keeps_covered_events(futures, spot, gauge, mode, threshold, k);
    let before = MachineState::rebuilt(futures.take(k), spot.take(k), gauge, mode, threshold);
    let whole = MachineState::rebuilt(futures, spot, gauge, mode, threshold);
    assert(history::drop_while(before.events, needs_before(futures[0].ts_bucket))
        == before.events);
    assert(whole.holding(whole.events) == whole);
}

/// What the indicator has to say of a minute.
#[derive(Clone, Copy, Debug, PartialEq, Eq)]
pub enum DivergenceSignal {
    /// There is too little history.
    InsufficientHistory,
    /// No divergence became known with this minute.
    NoCandidate,
    /// The given event, the last of those that became known with this minute.
    Signal(DivergenceEventData),
}

/// An event that becomes a row, with its direction.
#[derive(Clone, Copy, Debug, PartialEq, Eq)]
pub struct DivergenceRow {
    /// The event.
    pub event: DivergenceEventData,
    /// -1 for the bearish kinds, 1 for the bullish ones.
    pub direction: i16,
}

/// What the indicator reports of a minute.
pub struct DivergenceReport {
    /// What it has to say of the minute.
    pub signal: DivergenceSignal,
    /// The events that become rows, each one of an event and one of a divergence.
    pub rows: Vec<DivergenceRow>,
}

/// Whether `rows` are those of all events, in their order.
pub open spec fn are_rows(rows: Seq<DivergenceRow>, events: Seq<DivergenceEventData>) -> bool {
    &&& rows.len() == events.len()
    &&& forall|i: int|
        0 <= i < rows.len() ==> (#[trigger] rows[i]).event == events[i] && rows[i].direction
            == events[i].divergence_type.spec_direction()
}

/// Every event as a row.
fn rows_of(events: &[DivergenceEventData]) -> (out: Vec<DivergenceRow>)
    ensures
        are_rows(out@, events@),
{
    let mut out: Vec<DivergenceRow> = Vec::new();
    let mut i: usize = 0;
    while i < events.len()
        invariant
            i <= events@.len(),
            are_rows(out@, events@.take(i as int)),
        decreases events@.len() - i,
    {
        let event: DivergenceEventData = events[i];
        out.push(DivergenceRow { event, direction: event.divergence_type.direction() });
        i += 1;
    }
    proof {
        assert(events@.take(i as int) =~= events@);
    }
    out
}

/// Whether an event becomes known at the end of the minute that starts at `ts_bucket`.
pub open spec fn known_with(ts_bucket: i64) -> spec_fn(DivergenceEventData) -> bool {
    |event: DivergenceEventData| event.event_available_ts == ts_bucket + MINUTE_US
}

/// The last place whose event becomes known with a minute.
pub open spec fn last_known(events: Seq<DivergenceEventData>, ts_bucket: i64) -> Option<
    DivergenceEventData,
>
    decreases events.len(),
{
    if events.len() == 0 {
        None
    } else if known_with(ts_bucket)(events.last()) {
        Some(events.last())
    } else {
        last_known(events.drop_last(), ts_bucket)
    }
}

/// The divergence indicator.
pub struct I03Divergence;

impl I03Divergence {
    /// The code of the indicator.
    pub fn code(&self) -> (out: &'static str)
        ensures
            out@ == "divergence"@,
    {
        "divergence"
    }

    /// What the indicator has to say of the minute that starts at `ts_bucket`, given
    /// all events and the lengths of the histories they were found in, and the rows that
    /// all events become. With too little history there are none.
    pub fn evaluate(
        &self,
        ts_bucket: i64,
        all_events: &[DivergenceEventData],
        futures_minutes: usize,
        spot_minutes: usize,
    ) -> (out: DivergenceReport)
        requires
            clock::is_instant(ts_bucket),
        ensures
            out.signal is InsufficientHistory <==> futures_minutes < MIN_HISTORY_MINUTES
                || spot_minutes < MIN_HISTORY_MINUTES,
            futures_minutes >= MIN_HISTORY_MINUTES && spot_minutes >= MIN_HISTORY_MINUTES
                ==> out.signal == match last_known(all_events@, ts_bucket) {
                Some(event) => DivergenceSignal::Signal(event),
                None => DivergenceSignal::NoCandidate,
            },
            futures_minutes < MIN_HISTORY_MINUTES || spot_minutes < MIN_HISTORY_MINUTES
                ==> out.rows@.len() == 0,
            futures_minutes >= MIN_HISTORY_MINUTES && spot_minutes >= MIN_HISTORY_MINUTES
                ==> are_rows(out.rows@, all_events@),
    {
        if futures_minutes < MIN_HISTORY_MINUTES || spot_minutes < MIN_HISTORY_MINUTES {
            return DivergenceReport {
                signal: DivergenceSignal::InsufficientHistory,
                rows: Vec::new(),
            };
        }
        DivergenceReport {
            signal: newest_signal(ts_bucket, all_events),
            rows: rows_of(all_events),
        }
    }
}

/// The last event that becomes known with a minute, as a signal.
fn newest_signal(ts_bucket: i64, all_events: &[DivergenceEventData]) -> (out: DivergenceSignal)
    requires
        clock::is_instant(ts_bucket),
    ensures
        out == match last_known(all_events@, ts_bucket) {
            Some(event) => DivergenceSignal::Signal(event),
            None => DivergenceSignal::NoCandidate,
        },
{
    let current: i64 = ts_bucket + MINUTE_US;
    let mut i: usize = all_events.len();
    proof {
        assert(all_events@.take(i as int) =~= all_events@);
    }
    while i > 0
        invariant
            i <= all_events@.len(),
            current == ts_bucket + MINUTE_US,
            last_known(all_events@, ts_bucket) == last_known(
                all_events@.take(i as int),
                ts_bucket,
            ),
        decreases i,
    {
        i -= 1;
        proof {
            assert(all_events@.take(i + 1).drop_last() =~= all_events@.take(i as int));
            assert(all_events@.take(i + 1).last() == all_events@[i as int]);
        }
        if all_events[i].event_available_ts == current {
            return DivergenceSignal::Signal(all_events[i]);
        }
    }
    DivergenceSignal::NoCandidate
}

/// A minute has a signal exactly if some event becomes known at its end.
pub proof fn law_signal_means_new_event(events: Seq<DivergenceEventData>, ts_bucket: i64)
    ensures
        last_known(events, ts_bucket) is Some <==> exists|i: int|
            0 <= i < events.len() && (#[trigger] events[i]).event_available_ts == ts_bucket
                + MINUTE_US,
    decreases events.len(),
{
    if events.len() > 0 {
        let rest = events.drop_last();
        law_signal_means_new_event(rest, ts_bucket);
        assert(events.last() == events[events.len() - 1]);
        if last_known(rest, ts_bucket) is Some {
            let i = choose|i: int|
                0 <= i < rest.len() && (#[trigger] rest[i]).event_available_ts == ts_bucket
                    + MINUTE_US;
            assert(events[i].event_available_ts == ts_bucket + MINUTE_US);
        }
        if exists|i: int|
            0 <= i < events.len() && (#[trigger] events[i]).event_available_ts == ts_bucket
                + MINUTE_US {
            let i = choose|i: int|
                0 <= i < events.len() && (#[trigger] events[i]).event_available_ts == ts_bucket
                    + MINUTE_US;
            if i < rest.len() {
                assert(rest[i].event_available_ts == ts_bucket + MINUTE_US);
            }
        }
    }
}

/// The last place of an instant among the starts of minutes.
pub open spec fn last_place(ts: Seq<i64>, target: i64) -> Option<int>
    decreases ts.len(),
{
    if ts.len() == 0 {
        None
    } else if ts.last() == target {
        Some(ts.len() - 1)
    } else {
        last_place(ts.drop_last(), target)
    }
}

/// The last place of an instant in a history.
pub fn candidate_index<T: Stamped>(rows: &[T], target: i64) -> (out: Option<usize>)
    ensures
        out is Some <==> last_place(history::stamps(rows@), target) is Some,
        out matches Some(i) ==> last_place(history::stamps(rows@), target) == Some(i as int),
{
    let ghost ts = history::stamps(rows@);
    let mut i: usize = rows.len();
    proof {
        assert(ts.take(i as int) =~= ts);
    }
    while i > 0
        invariant
            i <= rows@.len(),
            ts == history::stamps(rows@),
            last_place(ts, target) == last_place(ts.take(i as int), target),
        decreases i,
    {
        i -= 1;
        proof {
            assert(ts.take(i + 1).drop_last() =~= ts.take(i as int));
            assert(ts.take(i + 1).last() == rows@[i as int].at());
        }
        if rows[i].ts() == target {
            return Some(i);
        }
    }
    None
}

/// Whether a change, given by its bit pattern, is a rise to the double with the key `by` or
/// beyond; what is not a number is none.
pub open spec fn is_rise(change: u64, by: int) -> bool {
    by <= change <= 0x7FF0_0000_0000_0000
}

/// Whether a change, given by its bit pattern, is a fall as large as the double with the key
/// `by` or larger; what is not a number is none.
pub open spec fn is_fall(change: u64, by: int) -> bool {
    0x8000_0000_0000_0000 + by <= change <= 0xFFF0_0000_0000_0000
}

/// Whether a leg shows a divergence of a kind. Its pivots lie 3 to 180 whole minutes apart,
/// all standardised values are there, the average true range is more than next to nothing
/// and the closes lie half of it apart or more. Price and the standardised delta of futures
/// went opposite ways, price by half an average true range or more and delta by a half or
/// more. At highs that is bearish where price rose, hidden bearish where it fell; at lows
/// bullish where price fell, hidden bullish where it rose. Both effects are at least one in
/// size or, where legs are resampled, no likelier by chance than the threshold; an effect
/// that was not resampled is certain where it is at least one and chance where it is not.
pub open spec fn shows(
    leg: Leg,
    m: LegMeasure,
    mode: DivergenceSigTestMode,
    threshold: Key,
    kind: DivergenceKind,
) -> bool {
    let span = leg.second.ts_bucket - leg.first.ts_bucket;
    let half = order::half(leg.second.atr->0);
    let large_price = m.price_effect_z >= KEY_ONE || m.price_effect_z <= -KEY_ONE;
    let large_flow = is_rise(m.cvd_diff_fut, KEY_ONE as int) || is_fall(
        m.cvd_diff_fut,
        KEY_ONE as int,
    );
    &&& 180_000_000 <= span < 10_860_000_000
    &&& leg.first.z_cvd_fut is Some && leg.second.z_cvd_fut is Some
    &&& leg.first.z_cvd_spot is Some && leg.second.z_cvd_spot is Some
    &&& leg.second.atr is Some && leg.second.atr->0 > KEY_EPS
    &&& m.leg_eff >= KEY_HALF
    &&& match kind {
        DivergenceKind::Bearish => leg.high && is_rise(m.price_diff, half as int) && is_fall(
            m.cvd_diff_fut,
            KEY_HALF as int,
        ),
        DivergenceKind::HiddenBearish => leg.high && is_fall(m.price_diff, half as int) && is_rise(
            m.cvd_diff_fut,
            KEY_HALF as int,
        ),
        DivergenceKind::Bullish => !leg.high && is_fall(m.price_diff, half as int) && is_rise(
            m.cvd_diff_fut,
            KEY_HALF as int,
        ),
        DivergenceKind::HiddenBullish => !leg.high && is_rise(m.price_diff, half as int) && is_fall(
            m.cvd_diff_fut,
            KEY_HALF as int,
        ),
    }
    &&& match mode {
        DivergenceSigTestMode::Threshold => large_price && large_flow,
        DivergenceSigTestMode::BlockBootstrap => {
            &&& match m.p_value_price {
                Some(p) => p <= threshold,
                None => (if large_price {
                    0
                } else {
                    KEY_ONE
                }) <= threshold,
            }
            &&& match m.p_value_cvd {
                Some(p) => p <= threshold,
                None => (if large_flow {
                    0
                } else {
                    KEY_ONE
                }) <= threshold,
            }
        },
    }
}

/// A leg is judged to diverge, and of which kind, exactly where it shows that divergence.
pub proof fn law_judged_as_shown(
    leg: Leg,
    m: LegMeasure,
    mode: DivergenceSigTestMode,
    threshold: Key,
    kind: DivergenceKind,
)
    ensures
        (verdict_on(leg, m, mode, threshold) is Some && verdict_on(
            leg,
            m,
            mode,
            threshold,
        )->0.kind == kind) <==> shows(leg, m, mode, threshold, kind),
{
    let span = leg.second.ts_bucket - leg.first.ts_bucket;
    assert(3 <= clock::whole_minutes(span) <= 180 <==> 180_000_000 <= span < 10_860_000_000);
    order::law_keys_order_doubles(m.price_diff, m.cvd_diff_fut);
}

/// What a verdict says beside the kind: the whole minutes of the leg; that chance explains an
/// effect as resampling said, else not at all where the effect is at least one in size and
/// wholly where it is not; that spot confirms where its flow has the sign of the price
/// change; that futures went against the price; that spot led by its share where it
/// confirms and there was flow to speak of; and that spot drove where it led by 0.6 or more.
pub proof fn law_verdict_figures(
    leg: Leg,
    m: LegMeasure,
    mode: DivergenceSigTestMode,
    threshold: Key,
)
    requires
        verdict_on(leg, m, mode, threshold) is Some,
    ensures
        ({
            let v = verdict_on(leg, m, mode, threshold)->0;
            let span = leg.second.ts_bucket - leg.first.ts_bucket;
            let resampled = mode is BlockBootstrap;
            let rose = m.price_diff <= 0x7FF0_0000_0000_0000;
            &&& v.leg_minutes * 60_000_000 <= span < (v.leg_minutes + 1) * 60_000_000
            &&& resampled && m.p_value_price is Some ==> v.p_value_price == m.p_value_price->0
            &&& resampled && m.p_value_cvd is Some ==> v.p_value_cvd == m.p_value_cvd->0
            &&& !resampled ==> v.p_value_price == 0 && v.p_value_cvd == 0
            &&& v.spot_price_flow_confirm <==> if rose {
                m.cvd_diff_spot <= 0x7FF0_0000_0000_0000
            } else {
                0x8000_0000_0000_0000 <= m.cvd_diff_spot <= 0xFFF0_0000_0000_0000
            }
            &&& v.fut_divergence_sign == -1
            &&& v.spot_lead_score == if v.spot_price_flow_confirm && m.flow_size > KEY_EPS {
                m.spot_share
            } else {
                0
            }
            &&& v.likely_driver is SpotLed <==> v.spot_lead_score >= KEY_SPOT_LED
            &&& v.likely_driver is Mixed <==> v.spot_lead_score < KEY_SPOT_LED
        }),
{
    let v = verdict_on(leg, m, mode, threshold)->0;
    law_judged_as_shown(leg, m, mode, threshold, v.kind);
    order::law_signs(m.price_diff);
    order::law_signs(m.cvd_diff_fut);
    order::law_signs(m.cvd_diff_spot);
}

/// The thresholds of the rules: a half, one, next to nothing (a millionth of a millionth),
/// 0.6 and 0.3.
pub proof fn law_thresholds()
    ensures
        order::is_nearest(KEY_HALF, 1, 2),
        order::is_nearest(KEY_ONE, 1, 1),
        order::is_nearest(KEY_EPS, 1, 1_000_000_000_000),
        order::is_nearest(KEY_SPOT_LED, 6, 10),
        order::is_nearest(KEY_FUTURES_LED, 3, 10),
{
    order::lemma_powers_of_two();
}

/// Whether a candidate of a kind joins two places.
pub open spec fn joins_places(c: DivergenceCandidate, i1: int, i2: int, kind: DivergenceKind) -> bool {
    c.i1 == i1 && c.i2 == i2 && c.verdict.kind == kind
}

/// Two neighbouring pivots make a candidate, and one of which kind, exactly where the leg
/// between them shows that divergence.
pub proof fn law_candidate_for_every_diverging_pair(
    minutes: Seq<DerivedMinute>,
    listed: Seq<(int, int)>,
    measures: Seq<LegMeasure>,
    pairs: int,
    mode: DivergenceSigTestMode,
    threshold: Key,
    high: bool,
    p: int,
    kind: DivergenceKind,
)
    requires
        1 <= p <= pairs < listed.len(),
        minutes.len() <= usize::MAX,
        forall|a: int| 0 <= a < listed.len() ==> 0 <= (#[trigger] listed[a]).0 < minutes.len(),
        forall|a: int, b: int|
            0 <= a < b < listed.len() ==> (#[trigger] listed[a]).0 < (#[trigger] listed[b]).0,
    ensures
        (exists|at: int|
            0 <= at < candidates_of(minutes, listed, measures, pairs, mode, threshold, high).len()
                && joins_places(
                #[trigger] candidates_of(
                    minutes,
                    listed,
                    measures,
                    pairs,
                    mode,
                    threshold,
                    high,
                )[at],
                listed[p - 1].0,
                listed[p].0,
                kind,
            )) <==> shows(
            Leg {
                high,
                idx_1: listed[p - 1].0 as usize,
                idx_2: listed[p].0 as usize,
                first: minutes[listed[p - 1].0],
                second: minutes[listed[p].0],
            },
            measures[p - 1],
            mode,
            threshold,
            kind,
        ),
    decreases pairs,
{
    let all = candidates_of(minutes, listed, measures, pairs, mode, threshold, high);
    let rest = candidates_of(minutes, listed, measures, pairs - 1, mode, threshold, high);
    let made = candidate_of(minutes, listed, pairs, measures[pairs - 1], mode, threshold, high);
    let leg = leg_between(minutes, listed[p - 1].0, listed[p].0, high);
    let i1 = listed[p - 1].0;
    let i2 = listed[p].0;
    law_judged_as_shown(leg, measures[p - 1], mode, threshold, kind);
    if p == pairs {
        lemma_earlier_pairs(minutes, listed, measures, pairs - 1, mode, threshold, high);
        if shows(leg, measures[p - 1], mode, threshold, kind) {
            assert(joins_places(all[all.len() - 1], i1, i2, kind));
        }
        if exists|at: int| 0 <= at < all.len() && joins_places(#[trigger] all[at], i1, i2, kind) {
            let at = choose|at: int|
                0 <= at < all.len() && joins_places(#[trigger] all[at], i1, i2, kind);
            if at < rest.len() {
                assert(all[at] == rest[at]);
            }
        }
    } else {
        law_candidate_for_every_diverging_pair(
            minutes,
            listed,
            measures,
            pairs - 1,
            mode,
            threshold,
            high,
            p,
            kind,
        );
        assert(listed[p].0 < listed[pairs].0);
        if exists|at: int| 0 <= at < rest.len() && joins_places(#[trigger] rest[at], i1, i2, kind) {
            let at = choose|at: int|
                0 <= at < rest.len() && joins_places(#[trigger] rest[at], i1, i2, kind);
            assert(all[at] == rest[at]);
        }
        if exists|at: int| 0 <= at < all.len() && joins_places(#[trigger] all[at], i1, i2, kind) {
            let at = choose|at: int|
                0 <= at < all.len() && joins_places(#[trigger] all[at], i1, i2, kind);
            assert(at < rest.len());
            assert(all[at] == rest[at]);
        }
    }
}

proof fn lemma_earlier_pairs(
    minutes: Seq<DerivedMinute>,
    listed: Seq<(int, int)>,
    measures: Seq<LegMeasure>,
    pairs: int,
    mode: DivergenceSigTestMode,
    threshold: Key,
    high: bool,
)
    requires
        pairs < listed.len(),
        minutes.len() <= usize::MAX,
        forall|a: int| 0 <= a < listed.len() ==> 0 <= (#[trigger] listed[a]).0 < minutes.len(),
        forall|a: int, b: int|
            0 <= a < b < listed.len() ==> (#[trigger] listed[a]).0 < (#[trigger] listed[b]).0,
    ensures
        forall|at: int|
            0 <= at < candidates_of(minutes, listed, measures, pairs, mode, threshold, high).len()
                ==> (#[trigger] candidates_of(
                minutes,
                listed,
                measures,
                pairs,
                mode,
                threshold,
                high,
            )[at]).i2 <= listed[pairs].0,
    decreases pairs,
{
    if pairs > 0 {
        lemma_earlier_pairs(minutes, listed, measures, pairs - 1, mode, threshold, high);
        assert(listed[pairs - 1].0 < listed[pairs].0);
    }
}

/// Whether two minutes of a history are neighbouring pivots of a side: each stands out from
/// the three before it and none of the three after it goes beyond it, and no minute between
/// them does so.
pub open spec fn are_neighbours(
    minutes: Seq<DerivedMinute>,
    a: int,
    b: int,
    high: bool,
) -> bool {
    &&& a < b
    &&& stands_out(minutes, a, high)
    &&& stands_out(minutes, b, high)
    &&& forall|i: int| a < i < b ==> !#[trigger] stands_out(minutes, i, high)
}

/// Whether a minute stands out: its high above the highs of the three minutes before it and
/// at or above those of the three after it, or its low below and at or below theirs.
pub open spec fn stands_out(minutes: Seq<DerivedMinute>, i: int, high: bool) -> bool {
    &&& 3 <= i < minutes.len() - 3
    &&& forall|d: int|
        1 <= d <= 3 ==> if high {
            (#[trigger] minutes[i - d]).high < minutes[i].high
        } else {
            minutes[i - d].low > minutes[i].low
        }
    &&& forall|d: int|
        1 <= d <= 3 ==> if high {
            (#[trigger] minutes[i + d]).high <= minutes[i].high
        } else {
            minutes[i + d].low >= minutes[i].low
        }
}

/// Whether an event tells of the divergence between two minutes: from the start of the first
/// to the end of the second, each known with the minute three after it, the event with the
/// end of the latter.
pub open spec fn tells_of(
    e: DivergenceEventData,
    minutes: Seq<DerivedMinute>,
    a: int,
    b: int,
    high: bool,
) -> bool {
    &&& e.pivot_side_high == high
    &&& e.event_start_ts == minutes[a].ts_bucket && e.pivot_ts_1 == minutes[a].ts_bucket
    &&& e.pivot_ts_2 == minutes[b].ts_bucket
    &&& e.event_end_ts == minutes[b].ts_bucket + 60_000_000
    &&& e.pivot_confirm_ts_1 == minutes[a + 3].ts_bucket
    &&& e.pivot_confirm_ts_2 == minutes[b + 3].ts_bucket
    &&& e.event_available_ts == minutes[b + 3].ts_bucket + 60_000_000
    &&& high ==> e.price_start == minutes[a].high && e.price_end == minutes[b].high
    &&& !high ==> e.price_start == minutes[a].low && e.price_end == minutes[b].low
    &&& e.cvd_start_fut == minutes[a].cvd_fut && e.cvd_end_fut == minutes[b].cvd_fut
    &&& e.cvd_start_spot == minutes[a].cvd_spot && e.cvd_end_spot == minutes[b].cvd_spot
    &&& e.divergence_type == e.verdict.kind
}

/// The leg between two minutes of a history, and what is measured of it.
pub open spec fn leg_of(minutes: Seq<DerivedMinute>, a: int, b: int, high: bool) -> Leg {
    Leg { high, idx_1: a as usize, idx_2: b as usize, first: minutes[a], second: minutes[b] }
}

proof fn lemma_stands_out(minutes: Seq<DerivedMinute>, i: int, high: bool)
    ensures
        stands_out(minutes, i, high) <==> pivots::is_pivot(
            extremes(minutes, high),
            i,
            3,
            high,
        ),
{
    let values = extremes(minutes, high);
    if stands_out(minutes, i, high) {
        assert forall|j: int| i - 3 <= j < i implies pivots::beyond(
            values[i],
            #[trigger] values[j],
            high,
        ) by {
            assert(minutes[i - (i - j)] == minutes[j]);
        }
        assert forall|j: int| i < j <= i + 3 implies !pivots::beyond(
            #[trigger] values[j],
            values[i],
            high,
        ) by {
            assert(minutes[i + (j - i)] == minutes[j]);
        }
    }
    if pivots::is_pivot(values, i, 3, high) {
        assert forall|d: int| 1 <= d <= 3 implies if high {
            (#[trigger] minutes[i - d]).high < minutes[i].high
        } else {
            minutes[i - d].low > minutes[i].low
        } by {
            assert(pivots::beyond(values[i], values[i - d], high));
        }
        assert forall|d: int| 1 <= d <= 3 implies if high {
            (#[trigger] minutes[i + d]).high <= minutes[i].high
        } else {
            minutes[i + d].low >= minutes[i].low
        } by {
            assert(!pivots::beyond(values[i + d], values[i], high));
        }
    }
}

proof fn lemma_neighbours_are_listed(minutes: Seq<DerivedMinute>, a: int, b: int, high: bool) -> (p:
    int)
    requires
        are_neighbours(minutes, a, b, high),
    ensures
        1 <= p < side_pivots(minutes, high).len(),
        side_pivots(minutes, high)[p - 1] == a,
        side_pivots(minutes, high)[p] == b,
{
    let values = extremes(minutes, high);
    let listed = side_pivots(minutes, high);
    pivots::law_pivots_listed(values, minutes.len() as int, 3, high);
    lemma_stands_out(minutes, a, high);
    lemma_stands_out(minutes, b, high);
    assert(listed.contains(a) && listed.contains(b));
    let q = choose|q: int| 0 <= q < listed.len() && listed[q] == a;
    let p = choose|p: int| 0 <= p < listed.len() && listed[p] == b;
    if p <= q {
        if p < q {
            assert(listed[p] < listed[q]);
        }
    } else if q + 1 < p {
        let i = listed[q + 1];
        assert(listed[q] < listed[q + 1] && listed[q + 1] < listed[p]);
        lemma_stands_out(minutes, i, high);
        assert(pivots::is_pivot(values, listed[q + 1], 3, high));
        assert(!stands_out(minutes, i, high));
    }
    p
}

proof fn lemma_listed_are_neighbours(minutes: Seq<DerivedMinute>, p: int, high: bool)
    requires
        1 <= p < side_pivots(minutes, high).len(),
    ensures
        are_neighbours(
            minutes,
            side_pivots(minutes, high)[p - 1],
            side_pivots(minutes, high)[p],
            high,
        ),
{
    let values = extremes(minutes, high);
    let listed = side_pivots(minutes, high);
    pivots::law_pivots_listed(values, minutes.len() as int, 3, high);
    let a = listed[p - 1];
    let b = listed[p];
    assert(pivots::is_pivot(values, a, 3, high) && pivots::is_pivot(values, b, 3, high));
    lemma_stands_out(minutes, a, high);
    lemma_stands_out(minutes, b, high);
    assert(a < b);
    assert forall|i: int| a < i < b implies !#[trigger] stands_out(minutes, i, high) by {
        lemma_stands_out(minutes, i, high);
        if pivots::is_pivot(values, i, 3, high) {
            assert(listed.contains(i));
            let q = choose|q: int| 0 <= q < listed.len() && listed[q] == i;
            if q < p - 1 {
                assert(listed[q] < listed[p - 1]);
            }
            if p < q {
                assert(listed[p] < listed[q]);
            }
        }
    }
}

proof fn lemma_all_in_turn(candidates: Seq<DivergenceCandidate>, x: DivergenceCandidate)
    requires
        candidates.contains(x),
    ensures
        in_turn(candidates).contains(x),
{
    broadcast use vstd::seq_lib::group_to_multiset_ensures;

    law_in_turn(candidates);
    assert(candidates.to_multiset().count(x) > 0);
    assert(in_turn(candidates).to_multiset().count(x) > 0);
}

/// Over a whole history of at least 125 minutes, every two neighbouring pivots whose leg
/// shows a divergence of some kind have an event of that kind that tells of them.
#[verifier::rlimit(60)]
#[verifier::spinoff_prover]
pub proof fn law_every_divergence_is_found(
    futures: Seq<FuturesMinute>,
    spot: Seq<SpotMinute>,
    gauge: Gauge,
    mode: DivergenceSigTestMode,
    threshold: Key,
    high: bool,
    a: int,
    b: int,
    kind: DivergenceKind,
)
    requires
        futures.len() < usize::MAX,
        forall|i: int|
            0 <= i < futures.len() ==> clock::is_instant((#[trigger] futures[i]).ts_bucket),
        ({
            let minutes = common_minutes(futures, spot);
            let leg = leg_of(minutes, a, b, high);
            &&& minutes.len() >= 125
            &&& are_neighbours(minutes, a, b, high)
            &&& shows(leg, gauge(leg, minutes.take(b + 1)), mode, threshold, kind)
        }),
    ensures
        exists|k: int|
            0 <= k < all_events(futures, spot, gauge, mode, threshold).len() && {
                let e = #[trigger] all_events(futures, spot, gauge, mode, threshold)[k];
                let minutes = common_minutes(futures, spot);
                &&& tells_of(e, minutes, a, b, high)
                &&& e.divergence_type == kind
                &&& e.measure == gauge(leg_of(minutes, a, b, high), minutes.take(b + 1))
            },
{
    let minutes = common_minutes(futures, spot);
    let p = lemma_neighbours_are_listed(minutes, a, b, high);
    lemma_places(minutes, high);
    lemma_stamps_are_instants(futures, spot);
    let listed = side_places(minutes, high);
    let pairs = listed.len() - 1;
    let measures = side_measures(minutes, gauge, high);
    let leg = leg_of(minutes, a, b, high);
    let found = gauged_candidates(minutes, gauge, mode, threshold, high);
    assert(listed[p - 1].0 == a && listed[p].0 == b);
    assert(measures[p - 1] == gauge(leg, minutes.take(b + 1)));
    law_candidate_for_every_diverging_pair(
        minutes,
        listed,
        measures,
        pairs,
        mode,
        threshold,
        high,
        p,
        kind,
    );
    let at = choose|at: int|
        0 <= at < found.len() && joins_places(#[trigger] found[at], a, b, kind);
    let c = found[at];
    lemma_candidate_of_pair(minutes, gauge, mode, threshold, high, at);
    let highs = gauged_candidates(minutes, gauge, mode, threshold, true);
    let lows = gauged_candidates(minutes, gauge, mode, threshold, false);
    assert((highs + lows).contains(c)) by {
        if high {
            assert((highs + lows)[at] == c);
        } else {
            assert((highs + lows)[highs.len() + at] == c);
        }
    }
    lemma_all_in_turn(highs + lows, c);
    let sorted = in_turn(highs + lows);
    let k = choose|k: int| 0 <= k < sorted.len() && sorted[k] == c;
    let events = all_events(futures, spot, gauge, mode, threshold);
    assert(events[k] == candidate_event(c, minutes));
    assert(clock::is_instant(minutes[b].ts_bucket));
    assert(clock::is_instant(minutes[b + 3].ts_bucket));
    assert(tells_of(events[k], minutes, a, b, high));
}

proof fn lemma_stamps_are_instants(futures: Seq<FuturesMinute>, spot: Seq<SpotMinute>)
    requires
        forall|i: int|
            0 <= i < futures.len() ==> clock::is_instant((#[trigger] futures[i]).ts_bucket),
    ensures
        forall|i: int|
            0 <= i < common_minutes(futures, spot).len() ==> clock::is_instant(
                (#[trigger] common_minutes(futures, spot)[i]).ts_bucket,
            ),
{
    let n = history::shorter(futures.len(), spot.len());
    assert forall|i: int|
        0 <= i < common_minutes(futures, spot).len() implies clock::is_instant(
        (#[trigger] common_minutes(futures, spot)[i]).ts_bucket,
    ) by {
        assert(history::tail(futures, n)[i] == futures[futures.len() - n + i]);
    }
}

/// What a candidate of a side holds: the pair it joins, with the minutes that confirm it.
proof fn lemma_candidate_of_pair(
    minutes: Seq<DerivedMinute>,
    gauge: Gauge,
    mode: DivergenceSigTestMode,
    threshold: Key,
    high: bool,
    at: int,
) -> (p: int)
    requires
        minutes.len() < usize::MAX,
        0 <= at < gauged_candidates(minutes, gauge, mode, threshold, high).len(),
    ensures
        1 <= p < side_pivots(minutes, high).len(),
        ({
            let c = gauged_candidates(minutes, gauge, mode, threshold, high)[at];
            let a = side_pivots(minutes, high)[p - 1];
            let b = side_pivots(minutes, high)[p];
            let leg = leg_of(minutes, a, b, high);
            &&& c.i1 == a && c.i2 == b
            &&& c.confirm_i1 == a + 3 && c.confirm_i2 == b + 3 && c.available_i == b + 3
            &&& c.leg == leg
            &&& c.measure == gauge(leg, minutes.take(b + 1))
            &&& verdict_on(leg, c.measure, mode, threshold) == Some(c.verdict)
        }),
{
    lemma_places(minutes, high);
    let places = side_places(minutes, high);
    lemma_pair_upto(
        minutes,
        side_measures(minutes, gauge, high),
        places.len() - 1,
        mode,
        threshold,
        high,
        at,
    )
}

proof fn lemma_pair_upto(
    minutes: Seq<DerivedMinute>,
    measures: Seq<LegMeasure>,
    pairs: int,
    mode: DivergenceSigTestMode,
    threshold: Key,
    high: bool,
    at: int,
) -> (p: int)
    requires
        minutes.len() < usize::MAX,
        pairs < side_places(minutes, high).len(),
        0 <= at < candidates_of(
            minutes,
            side_places(minutes, high),
            measures,
            pairs,
            mode,
            threshold,
            high,
        ).len(),
    ensures
        1 <= p <= pairs,
        ({
            let c = candidates_of(
                minutes,
                side_places(minutes, high),
                measures,
                pairs,
                mode,
                threshold,
                high,
            )[at];
            let a = side_pivots(minutes, high)[p - 1];
            let b = side_pivots(minutes, high)[p];
            let leg = leg_of(minutes, a, b, high);
            &&& c.i1 == a && c.i2 == b
            &&& c.confirm_i1 == a + 3 && c.confirm_i2 == b + 3 && c.available_i == b + 3
            &&& c.leg == leg
            &&& c.measure == measures[p - 1]
            &&& verdict_on(leg, c.measure, mode, threshold) == Some(c.verdict)
        }),
    decreases pairs,
{
    lemma_places(minutes, high);
    let places = side_places(minutes, high);
    let rest = candidates_of(minutes, places, measures, pairs - 1, mode, threshold, high);
    if at < rest.len() {
        lemma_pair_upto(minutes, measures, pairs - 1, mode, threshold, high, at)
    } else {
        let listed = side_pivots(minutes, high);
        assert(places[pairs - 1].0 == listed[pairs - 1] && places[pairs].0 == listed[pairs]);
        assert(listed[pairs - 1] < listed[pairs]);
        pairs
    }
}

/// Whether an event is that of two neighbouring pivots of its side whose leg shows a
/// divergence of its kind.
pub open spec fn is_divergence(
    e: DivergenceEventData,
    minutes: Seq<DerivedMinute>,
    gauge: Gauge,
    mode: DivergenceSigTestMode,
    threshold: Key,
    a: int,
    b: int,
) -> bool {
    let leg = leg_of(minutes, a, b, e.pivot_side_high);
    &&& are_neighbours(minutes, a, b, e.pivot_side_high)
    &&& tells_of(e, minutes, a, b, e.pivot_side_high)
    &&& e.measure == gauge(leg, minutes.take(b + 1))
    &&& shows(leg, e.measure, mode, threshold, e.divergence_type)
    &&& verdict_on(leg, e.measure, mode, threshold) == Some(e.verdict)
}

/// Every event of a whole history tells of two neighbouring pivots whose leg shows a
/// divergence of its kind, and a history of fewer than 125 minutes has none.
#[verifier::rlimit(60)]
#[verifier::spinoff_prover]
pub proof fn law_every_event_is_a_divergence(
    futures: Seq<FuturesMinute>,
    spot: Seq<SpotMinute>,
    gauge: Gauge,
    mode: DivergenceSigTestMode,
    threshold: Key,
    k: int,
)
    requires
        futures.len() < usize::MAX,
        forall|i: int|
            0 <= i < futures.len() ==> clock::is_instant((#[trigger] futures[i]).ts_bucket),
        0 <= k < all_events(futures, spot, gauge, mode, threshold).len(),
    ensures
        common_minutes(futures, spot).len() >= 125,
        exists|a: int, b: int| #[trigger]
            is_divergence(
                all_events(futures, spot, gauge, mode, threshold)[k],
                common_minutes(futures, spot),
                gauge,
                mode,
                threshold,
                a,
                b,
            ),
{
    let minutes = common_minutes(futures, spot);
    let highs = gauged_candidates(minutes, gauge, mode, threshold, true);
    let lows = gauged_candidates(minutes, gauge, mode, threshold, false);
    let sorted = in_turn(highs + lows);
    let events = all_events(futures, spot, gauge, mode, threshold);
    let c = sorted[k];
    lemma_stamps_are_instants(futures, spot);
    lemma_in_turn_within(highs + lows);
    assert(sorted.contains(c));
    let j = choose|j: int| 0 <= j < (highs + lows).len() && (highs + lows)[j] == c;
    let high = j < highs.len();
    let at = if high {
        j
    } else {
        j - highs.len()
    };
    let p = lemma_candidate_of_pair(minutes, gauge, mode, threshold, high, at);
    lemma_listed_are_neighbours(minutes, p, high);
    lemma_places(minutes, high);
    let a = side_pivots(minutes, high)[p - 1];
    let b = side_pivots(minutes, high)[p];
    law_judged_as_shown(leg_of(minutes, a, b, high), c.measure, mode, threshold, c.verdict.kind);
    assert(clock::is_instant(minutes[b].ts_bucket));
    assert(clock::is_instant(minutes[b + 3].ts_bucket));
    assert(events[k] == candidate_event(c, minutes));
    assert(is_divergence(events[k], minutes, gauge, mode, threshold, a, b));
}

/// The minutes that the rules see are those of the common end of both histories, with the
/// prices of futures and the deltas of both markets; the trend is taken out of the price and
/// the range averaged from the sixtieth minute on, deltas are standardised from the hundred
/// and twentieth on.
pub proof fn law_minutes_as_seen(futures: Seq<FuturesMinute>, spot: Seq<SpotMinute>, i: int)
    requires
        0 <= i < futures.len(),
        i < spot.len(),
    ensures
        ({
            let n = if futures.len() < spot.len() {
                futures.len()
            } else {
                spot.len()
            };
            let seen = common_minutes(futures, spot);
            let m = seen[i];
            let f = futures[futures.len() - n + i];
            let s = spot[spot.len() - n + i];
            &&& seen.len() == n
            &&& m.ts_bucket == f.ts_bucket
            &&& m.high == f.quote.spec_high().at && m.low == f.quote.spec_low().at
            &&& m.close == f.quote.spec_close_or_last().at
            &&& m.cvd_fut == f.cvd && m.cvd_spot == s.cvd
            &&& m.detrended_price == (if i >= 59 {
                Some(f.detrended_price)
            } else {
                None
            })
            &&& m.atr == (if i >= 59 {
                Some(f.atr)
            } else {
                None
            })
            &&& i >= 119 ==> m.z_cvd_fut == f.z_cvd && m.z_cvd_spot == s.z_cvd
            &&& i < 119 ==> m.z_cvd_fut is None && m.z_cvd_spot is None
        }),
{
    let n = history::shorter(futures.len(), spot.len());
    assert(history::tail(futures, n)[i] == futures[futures.len() - n + i]);
    assert(history::tail(spot, n)[i] == spot[spot.len() - n + i]);
}

/// Each kind of divergence has a name of its own, and the bearish kinds point down where the
/// bullish ones point up.
pub proof fn law_kind_names(kind: DivergenceKind)
    ensures
        kind.spec_name() == "bearish"@ <==> kind is Bearish,
        kind.spec_name() == "hidden_bearish"@ <==> kind is HiddenBearish,
        kind.spec_name() == "bullish"@ <==> kind is Bullish,
        kind.spec_name() == "hidden_bullish"@ <==> kind is HiddenBullish,
        kind.spec_direction() == -1 <==> kind is Bearish || kind is HiddenBearish,
        kind.spec_direction() == 1 <==> kind is Bullish || kind is HiddenBullish,
{
    reveal_strlit("bearish");
    reveal_strlit("hidden_bearish");
    reveal_strlit("bullish");
    reveal_strlit("hidden_bullish");
    assert("bearish"@.len() == 7 && "bearish"@[1] == 'e');
    assert("bullish"@.len() == 7 && "bullish"@[1] == 'u');
    assert("hidden_bearish"@.len() == 14 && "hidden_bearish"@[8] == 'e');
    assert("hidden_bullish"@.len() == 14 && "hidden_bullish"@[8] == 'u');
}

/// The full name of a kind is its short one with a word behind it; any other text has none.
pub proof fn law_labels(kind: DivergenceKind, text: Seq<char>)
    ensures
        label_of(kind.spec_name()) == kind.spec_name() + "_divergence"@,
        text != "bearish"@ && text != "hidden_bearish"@ && text != "bullish"@ && text
            != "hidden_bullish"@ <==> label_of(text) == "unknown"@,
{
    law_kind_names(kind);
    reveal_strlit("bearish");
    reveal_strlit("hidden_bearish");
    reveal_strlit("bullish");
    reveal_strlit("hidden_bullish");
    reveal_strlit("_divergence");
    reveal_strlit("bearish_divergence");
    reveal_strlit("hidden_bearish_divergence");
    reveal_strlit("bullish_divergence");
    reveal_strlit("hidden_bullish_divergence");
    reveal_strlit("unknown");
    assert("unknown"@.len() == 7);
    assert("bearish_divergence"@ =~= "bearish"@ + "_divergence"@);
    assert("hidden_bearish_divergence"@ =~= "hidden_bearish"@ + "_divergence"@);
    assert("bullish_divergence"@ =~= "bullish"@ + "_divergence"@);
    assert("hidden_bullish_divergence"@ =~= "hidden_bullish"@ + "_divergence"@);
}

/// The signal of a minute is the last event that becomes known at its end.
pub proof fn law_signal_is_last_new_event(
    events: Seq<DivergenceEventData>,
    ts_bucket: i64,
    i: int,
)
    requires
        0 <= i < events.len(),
        events[i].event_available_ts == ts_bucket + 60_000_000,
        forall|j: int|
            i < j < events.len() ==> (#[trigger] events[j]).event_available_ts != ts_bucket
                + 60_000_000,
    ensures
        last_known(events, ts_bucket) == Some(events[i]),
    decreases events.len(),
{
    if i < events.len() - 1 {
        assert(events.last() == events[events.len() - 1]);
        law_signal_is_last_new_event(events.drop_last(), ts_bucket, i);
    }
}

/// Spot leads from its mark on; below both marks futures lead unless their flow went against
/// the price; and else the two are mixed.
pub proof fn law_driver(lead: Key, fut_sign: i16)
    ensures
        driver_of(lead, fut_sign) is SpotLed <==> lead >= KEY_SPOT_LED,
        driver_of(lead, fut_sign) is FuturesLed <==> lead < KEY_SPOT_LED && lead < KEY_FUTURES_LED
            && fut_sign != -1,
        driver_of(lead, fut_sign) is Mixed <==> lead < KEY_SPOT_LED && (lead >= KEY_FUTURES_LED
            || fut_sign == -1),
{
}

} // verus!
