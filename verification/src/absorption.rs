//! Absorption: one-sided flow at a key level that price does not follow.
//!
//! Minutes are held against the key levels known at the time and marked where
//! flow was absorbed. Marked minutes close together make a group; a group becomes
//! an event when one of the bars after it closes away from the level.

use crate::clock;
use crate::clock::{minutes_between, MINUTE_US};
#[allow(unused_imports)]
use crate::events;
use crate::events::{covered_minutes, current_events, Confirmed, EventReport};
use crate::history::copied;
use crate::order;
use crate::order::{lower_key, upper_key, Key, Price, KEY_INFINITY};
use vstd::prelude::*;

verus! {

/// Whole minutes that may lie between neighbouring minutes of a group.
pub const MERGE_GAP_MINUTES: i64 = 1;

/// Bars after a group in which a close can confirm it.
pub const CONFIRM_BARS: usize = 3;

/// Most minutes from the first to the last of a group.
pub const MAX_EVENT_MINUTES: usize = 30;

/// The fewest minutes in which a history is looked at.
pub const MIN_HISTORY_MINUTES: usize = 8;

/// Bars over which the extremes of the previous session are taken.
pub const SESSION_BARS: usize = 1440;

/// The key of 0.04, the least range of a marked minute.
pub const MIN_RANGE: i64 = 0x3FA4_7AE1_47AE_147B;

/// The key of 0.15, the least relative delta of a marked minute.
pub const RDELTA_ABS_MIN: i64 = 0x3FC3_3333_3333_3333;

/// The key of 0.7, the least rejection of a marked minute.
pub const ETA_REJECT: i64 = 0x3FE6_6666_6666_6666;

/// The key of 6, the most ticks from a key level.
pub const KEY_DIST_TICKS: i64 = 0x4018_0000_0000_0000;

/// A minute with the levels that its profile gives.
#[derive(Clone, Copy, Debug, PartialEq, Eq)]
pub struct Bar {
    /// Start of the minute.
    pub ts_bucket: i64,
    /// Open.
    pub open: Key,
    /// High.
    pub high: Price,
    /// Low.
    pub low: Price,
    /// Close.
    pub close: Key,
    /// Delta relative to volume.
    pub rdelta: Key,
    /// Volume-weighted average price of the minute.
    pub avwap: Option<Key>,
    /// Lower border, upper border and busiest level of the minute's value area.
    pub value_area: Option<(Key, Key, Key)>,
    /// Whether buying imbalances are stacked.
    pub stacked_buy: bool,
    /// Whether selling imbalances are stacked.
    pub stacked_sell: bool,
}

/// The key levels in force at a minute.
#[derive(Clone, Copy, Debug, PartialEq, Eq)]
pub struct KeyLevels {
    /// Upper border of the latest value area.
    pub vah: Key,
    /// Lower border of the latest value area.
    pub val: Key,
    /// Busiest level of the latest value area.
    pub poc: Key,
    /// Latest volume-weighted average price.
    pub avwap: Key,
    /// Highest high of the bars before, or the upper border.
    pub session_high: Key,
    /// Lowest low of the bars before, or the lower border.
    pub session_low: Key,
}

/// What is measured of a minute against its key levels.
#[derive(Clone, Copy, Debug, PartialEq, Eq)]
pub struct BarMeasure {
    /// High less low.
    pub range: Key,
    /// Distance of the close from the low, relative to the range.
    pub reject_bull: Key,
    /// Distance of the close from the high, relative to the range.
    pub reject_bear: Key,
    /// Ticks from the low to each key level.
    pub low_distances: [i64; 6],
    /// Ticks from the high to each key level.
    pub high_distances: [i64; 6],
}

/// Marked minutes close together.
#[derive(Clone, Copy, Debug, PartialEq, Eq)]
pub struct Group {
    /// 1 where selling was absorbed, -1 where buying was.
    pub direction: i16,
    /// Place of the first minute.
    pub start: usize,
    /// Place of the last minute.
    pub end: usize,
}

/// A group with the extremes of its bars and of the bars after it.
#[derive(Clone, Copy, Debug, PartialEq, Eq)]
pub struct GroupShape {
    /// The group.
    pub group: Group,
    /// Lowest low of the group.
    pub low: Price,
    /// Highest high of the group.
    pub high: Price,
    /// Lowest low of the bars after the group.
    pub future_low: Key,
    /// Highest high of the bars after the group.
    pub future_high: Key,
}

/// Absorbed flow that price turned away from.
#[derive(Clone, Copy, Debug, PartialEq, Eq)]
pub struct AbsorptionEventData {
    /// 1 where selling was absorbed, -1 where buying was.
    pub direction: i16,
    /// Start of the first minute.
    pub start_ts: i64,
    /// End of the last minute.
    pub end_ts: i64,
    /// End of the confirming minute.
    pub confirm_ts: i64,
    /// The extreme that held.
    pub pivot_price: Key,
    /// Lowest low of the group.
    pub price_low: Key,
    /// Highest high of the group.
    pub price_high: Key,
    /// Fewest ticks from the extreme to a key level.
    pub key_distance_ticks: Key,
    /// Whether buying imbalances were stacked in any minute of the group.
    pub stacked_buy_imbalance: bool,
    /// Whether selling imbalances were stacked in any minute of the group.
    pub stacked_sell_imbalance: bool,
    /// Place of the first minute.
    pub start_idx: usize,
    /// Place of the last minute.
    pub end_idx: usize,
    /// Place of the confirming minute.
    pub confirm_idx: usize,
}

/// The latest average price of a run of bars.
pub open spec fn latest_avwap(bars: Seq<Bar>) -> Option<Key>
    decreases bars.len(),
{
    if bars.len() == 0 {
        None
    } else {
        match bars.last().avwap {
            Some(_) => bars.last().avwap,
            None => latest_avwap(bars.drop_last()),
        }
    }
}

/// The latest value area of a run of bars.
pub open spec fn latest_area(bars: Seq<Bar>) -> Option<(Key, Key, Key)>
    decreases bars.len(),
{
    if bars.len() == 0 {
        None
    } else {
        match bars.last().value_area {
            Some(_) => bars.last().value_area,
            None => latest_area(bars.drop_last()),
        }
    }
}

/// The highs of the bars `from..to`.
pub open spec fn highs(bars: Seq<Bar>, from: int, to: int) -> Seq<Key> {
    Seq::new((to - from) as nat, |i: int| bars[from + i].high.at)
}

/// The lows of the bars `from..to`.
pub open spec fn lows(bars: Seq<Bar>, from: int, to: int) -> Seq<Key> {
    Seq::new((to - from) as nat, |i: int| bars[from + i].low.at)
}

/// Where the session before bar `i` starts.
pub open spec fn session_start(i: int) -> int {
    if i > SESSION_BARS {
        i - SESSION_BARS
    } else {
        0
    }
}

/// The key levels in force at bar `i`: what was last known, or the bar's own prices
/// where nothing was.
pub open spec fn levels_at(bars: Seq<Bar>, i: int) -> KeyLevels {
    let bar = bars[i];
    let (val, vah, poc) = match latest_area(bars.take(i + 1)) {
        Some(area) => area,
        None => (bar.low.at, bar.high.at, bar.close),
    };
    KeyLevels {
        vah,
        val,
        poc,
        avwap: match latest_avwap(bars.take(i + 1)) {
            Some(avwap) => avwap,
            None => bar.close,
        },
        session_high: if i == 0 {
            vah
        } else {
            order::highest(highs(bars, session_start(i), i))
        },
        session_low: if i == 0 {
            val
        } else {
            order::lowest(lows(bars, session_start(i), i))
        },
    }
}

/// The lowest low and the highest high of the bars `from..to`.
fn range_extremes(bars: &[Bar], from: usize, to: usize) -> (out: (Key, Key))
    requires
        from <= to <= bars@.len(),
    ensures
        out.0 == order::lowest(lows(bars@, from as int, to as int)),
        out.1 == order::highest(highs(bars@, from as int, to as int)),
{
    let mut low: Key = KEY_INFINITY;
    let mut high: Key = -KEY_INFINITY;
    let mut i: usize = from;
    proof {
        assert(lows(bars@, from as int, from as int) =~= Seq::empty());
        assert(highs(bars@, from as int, from as int) =~= Seq::empty());
    }
    while i < to
        invariant
            from <= i <= to <= bars@.len(),
            low == order::lowest(lows(bars@, from as int, i as int)),
            high == order::highest(highs(bars@, from as int, i as int)),
        decreases to - i,
    {
        proof {
            assert(lows(bars@, from as int, i + 1).drop_last() =~= lows(
                bars@,
                from as int,
                i as int,
            ));
            assert(highs(bars@, from as int, i + 1).drop_last() =~= highs(
                bars@,
                from as int,
                i as int,
            ));
        }
        low = lower_key(low, bars[i].low.at);
        high = upper_key(high, bars[i].high.at);
        i += 1;
    }
    (low, high)
}

/// The key levels in force at each bar.
pub fn key_levels(bars: &[Bar]) -> (out: Vec<KeyLevels>)
    ensures
        out@ == Seq::new(bars@.len(), |i: int| levels_at(bars@, i)),
{
    let mut out: Vec<KeyLevels> = Vec::new();
    let mut avwap: Option<Key> = None;
    let mut area: Option<(Key, Key, Key)> = None;
    let mut i: usize = 0;
    proof {
        assert(bars@.take(0) =~= Seq::empty());
    }
    while i < bars.len()
        invariant
            i <= bars@.len(),
            avwap == latest_avwap(bars@.take(i as int)),
            area == latest_area(bars@.take(i as int)),
            out@ =~= Seq::new(i as nat, |j: int| levels_at(bars@, j)),
        decreases bars@.len() - i,
    {
        let bar: Bar = bars[i];
        proof {
            assert(bars@.take(i + 1).drop_last() =~= bars@.take(i as int));
            assert(bars@.take(i + 1).last() == bar);
        }
        if bar.avwap.is_some() {
            avwap = bar.avwap;
        }
        if bar.value_area.is_some() {
            area = bar.value_area;
        }
        let (val, vah, poc) = match area {
            Some(known) => known,
            None => (bar.low.at, bar.high.at, bar.close),
        };
        let (session_low, session_high) = if i == 0 {
            (val, vah)
        } else {
            let start: usize = if i > SESSION_BARS {
                i - SESSION_BARS
            } else {
                0
            };
            range_extremes(bars, start, i)
        };
        out.push(
            KeyLevels {
                vah,
                val,
                poc,
                avwap: match avwap {
                    Some(price) => price,
                    None => bar.close,
                },
                session_high,
                session_low,
            },
        );
        i += 1;
    }
    out
}

/// The least of the distances to the key levels.
pub open spec fn nearest(distances: [i64; 6]) -> Key {
    order::lowest(distances@)
}

fn nearest_of(distances: &[i64; 6]) -> (out: Key)
    ensures
        out == nearest(*distances),
{
    let mut least: Key = KEY_INFINITY;
    let mut i: usize = 0;
    proof {
        assert(distances@.take(0) =~= Seq::empty());
    }
    while i < 6
        invariant
            i <= 6,
            distances@.len() == 6,
            least == order::lowest(distances@.take(i as int)),
        decreases 6 - i,
    {
        proof {
            assert(distances@.take(i + 1).drop_last() =~= distances@.take(i as int));
        }
        least = lower_key(least, distances[i]);
        i += 1;
    }
    proof {
        assert(distances@.take(6) =~= distances@);
    }
    least
}

/// Whether selling was absorbed: a wide bar near a key level that closes up and away
/// from its low on selling.
pub open spec fn absorbs_selling(bar: Bar, m: BarMeasure) -> bool {
    &&& bar.stacked_sell
    &&& m.range >= MIN_RANGE
    &&& bar.rdelta <= -RDELTA_ABS_MIN
    &&& bar.close > bar.open
    &&& m.reject_bull >= ETA_REJECT
    &&& nearest(m.low_distances) <= KEY_DIST_TICKS
}

/// Whether buying was absorbed.
pub open spec fn absorbs_buying(bar: Bar, m: BarMeasure) -> bool {
    &&& bar.stacked_buy
    &&& m.range >= MIN_RANGE
    &&& bar.rdelta >= RDELTA_ABS_MIN
    &&& bar.close < bar.open
    &&& m.reject_bear >= ETA_REJECT
    &&& nearest(m.high_distances) <= KEY_DIST_TICKS
}

/// The mark of a bar: 1 where selling was absorbed, -1 where buying was, else 0.
pub open spec fn mark(bar: Bar, m: BarMeasure) -> i16 {
    if absorbs_selling(bar, m) == absorbs_buying(bar, m) {
        0
    } else if absorbs_selling(bar, m) {
        1
    } else {
        (-1) as i16
    }
}

/// The mark of a bar.
pub fn mark_of(bar: &Bar, m: &BarMeasure) -> (out: i16)
    ensures
        out == mark(*bar, *m),
{
    let bull: bool = bar.stacked_sell && m.range >= MIN_RANGE && bar.rdelta <= -RDELTA_ABS_MIN
        && bar.close > bar.open && m.reject_bull >= ETA_REJECT && nearest_of(&m.low_distances)
        <= KEY_DIST_TICKS;
    let bear: bool = bar.stacked_buy && m.range >= MIN_RANGE && bar.rdelta >= RDELTA_ABS_MIN
        && bar.close < bar.open && m.reject_bear >= ETA_REJECT && nearest_of(&m.high_distances)
        <= KEY_DIST_TICKS;
    if bull == bear {
        0
    } else if bull {
        1
    } else {
        -1
    }
}

/// The marks of a history.
pub open spec fn marks(bars: Seq<Bar>, measures: Seq<BarMeasure>) -> Seq<i16> {
    Seq::new(bars.len(), |i: int| mark(bars[i], measures[i]))
}

/// Whether a marked bar joins a group: the same mark, at most a minute after its last
/// bar, and the group does not get too long.
pub open spec fn joins(group: Group, bars: Seq<Bar>, i: int, direction: i16) -> bool {
    &&& group.direction == direction
    &&& clock::whole_minutes(bars[i].ts_bucket - bars[group.end as int].ts_bucket)
        <= MERGE_GAP_MINUTES
    &&& i - group.start + 1 <= MAX_EVENT_MINUTES
}

/// The groups of the bars before `hi`, in order.
pub open spec fn groups_before(bars: Seq<Bar>, signs: Seq<i16>, hi: int) -> Seq<Group>
    decreases hi,
{
    if hi <= 0 {
        Seq::empty()
    } else {
        let rest = groups_before(bars, signs, hi - 1);
        let i = hi - 1;
        if signs[i] == 0 {
            rest
        } else if rest.len() > 0 && joins(rest.last(), bars, i, signs[i]) {
            rest.drop_last().push(Group { end: i as usize, ..rest.last() })
        } else {
            rest.push(Group { direction: signs[i], start: i as usize, end: i as usize })
        }
    }
}

/// Whether a group is one of marked bars before `hi`.
pub open spec fn is_group(group: Group, signs: Seq<i16>, hi: int) -> bool {
    &&& 0 <= group.start <= group.end < hi
    &&& group.direction != 0
    &&& signs[group.start as int] == group.direction
    &&& signs[group.end as int] == group.direction
    &&& group.end - group.start + 1 <= MAX_EVENT_MINUTES
}

/// Groups are made of marked bars: each starts and ends with a bar of its mark and
/// spans no more than the most minutes allowed; they follow one another without
/// overlap; and every marked bar lies in one.
#[verifier::rlimit(50)]
#[verifier::spinoff_prover]
pub proof fn law_groups(bars: Seq<Bar>, signs: Seq<i16>, hi: int)
    requires
        0 <= hi <= signs.len(),
        signs.len() <= usize::MAX,
    ensures
        ({
            let groups = groups_before(bars, signs, hi);
            &&& forall|g: int| 0 <= g < groups.len() ==> is_group(#[trigger] groups[g], signs, hi)
            &&& forall|g: int, h: int|
                0 <= g < h < groups.len() ==> (#[trigger] groups[g]).end < (
                #[trigger] groups[h]).start
            &&& forall|i: int| 0 <= i < hi && #[trigger] signs[i] != 0 ==> lies_in(groups, i)
        }),
    decreases hi,
{
    if hi > 0 {
        law_groups(bars, signs, hi - 1);
        let rest = groups_before(bars, signs, hi - 1);
        let groups = groups_before(bars, signs, hi);
        let i = hi - 1;
        if signs[i] == 0 {
            assert(groups == rest);
        } else if rest.len() > 0 && joins(rest.last(), bars, i, signs[i]) {
            let m = rest.len() - 1;
            assert(rest.last() == rest[m]);
            assert(is_group(rest[m], signs, hi - 1));
            assert forall|g: int| 0 <= g < m implies #[trigger] groups[g] == rest[g] by {}
            assert(groups[m].start == rest[m].start && groups[m].end == i);
            lemma_lies_in_grown(rest, groups);
            assert forall|g: int, h: int| 0 <= g < h < groups.len() implies (
            #[trigger] groups[g]).end < (#[trigger] groups[h]).start by {
                assert(rest[g].end < rest[h].start);
            }
            assert(groups[m].start <= i <= groups[m].end);
        } else {
            let m = rest.len() as int;
            assert forall|g: int| 0 <= g < m implies #[trigger] groups[g] == rest[g] by {}
            lemma_lies_in_grown(rest, groups);
            assert forall|g: int, h: int| 0 <= g < h < groups.len() implies (
            #[trigger] groups[g]).end < (#[trigger] groups[h]).start by {
                if h == m {
                    assert(is_group(rest[g], signs, hi - 1));
                } else {
                    assert(rest[g].end < rest[h].start);
                }
            }
            assert(groups[m].start <= i <= groups[m].end);
        }
        assert forall|g: int| 0 <= g < groups.len() implies is_group(
            #[trigger] groups[g],
            signs,
            hi,
        ) by {
            if g < rest.len() {
                assert(is_group(rest[g], signs, hi - 1));
            }
        }
    }
}

proof fn lemma_lies_in_grown(before: Seq<Group>, after: Seq<Group>)
    requires
        before.len() <= after.len(),
        forall|g: int|
            0 <= g < before.len() ==> (#[trigger] after[g]).start == before[g].start && after[g].end
                >= before[g].end,
    ensures
        forall|i: int| #[trigger] lies_in(before, i) ==> lies_in(after, i),
{
    assert forall|i: int| #[trigger] lies_in(before, i) implies lies_in(after, i) by {
        let g = choose|g: int|
            0 <= g < before.len() && (#[trigger] before[g]).start <= i <= before[g].end;
        assert(after[g].start <= i <= after[g].end);
    }
}

/// Whether a place lies in one of the groups.
pub open spec fn lies_in(groups: Seq<Group>, i: int) -> bool {
    exists|g: int| 0 <= g < groups.len() && (#[trigger] groups[g]).start <= i <= groups[g].end
}

/// The groups of a history.
fn group_marks(bars: &[Bar], signs: &Vec<i16>) -> (out: Vec<Group>)
    requires
        signs@.len() == bars@.len(),
        forall|i: int| 0 <= i < bars@.len() ==> clock::is_instant(#[trigger] bars@[i].ts_bucket),
    ensures
        out@ == groups_before(bars@, signs@, bars@.len() as int),
{
    let mut out: Vec<Group> = Vec::new();
    let n: usize = bars.len();
    let mut i: usize = 0;
    while i < n
        invariant
            i <= n,
            n == bars@.len(),
            n == signs@.len(),
            forall|j: int| 0 <= j < n ==> clock::is_instant(#[trigger] bars@[j].ts_bucket),
            out@ == groups_before(bars@, signs@, i as int),
        decreases n - i,
    {
        let sign: i16 = signs[i];
        if sign != 0 {
            let count: usize = out.len();
            let mut joined: bool = false;
            proof {
                law_groups(bars@, signs@, i as int);
            }
            if count > 0 {
                let last: Group = out[count - 1];
                let gap: i64 = minutes_between(bars[last.end].ts_bucket, bars[i].ts_bucket);
                if last.direction == sign && gap <= MERGE_GAP_MINUTES && i - last.start
                    < MAX_EVENT_MINUTES {
                    let removed: Option<Group> = out.pop();
                    out.push(Group { direction: last.direction, start: last.start, end: i });
                    joined = true;
                }
            }
            if !joined {
                out.push(Group { direction: sign, start: i, end: i });
            }
        }
        i += 1;
    }
    out
}

/// The lowest of a run of prices.
pub open spec fn lowest_price(prices: Seq<Price>) -> Price
    decreases prices.len(),
{
    if prices.len() <= 1 {
        prices[0]
    } else {
        let rest = lowest_price(prices.drop_last());
        if prices.last().at < rest.at {
            prices.last()
        } else {
            rest
        }
    }
}

/// The highest of a run of prices.
pub open spec fn highest_price(prices: Seq<Price>) -> Price
    decreases prices.len(),
{
    if prices.len() <= 1 {
        prices[0]
    } else {
        let rest = highest_price(prices.drop_last());
        if prices.last().at > rest.at {
            prices.last()
        } else {
            rest
        }
    }
}

/// The low prices of the bars `from..to`.
pub open spec fn low_prices(bars: Seq<Bar>, from: int, to: int) -> Seq<Price> {
    Seq::new((to - from) as nat, |i: int| bars[from + i].low)
}

/// The high prices of the bars `from..to`.
pub open spec fn high_prices(bars: Seq<Bar>, from: int, to: int) -> Seq<Price> {
    Seq::new((to - from) as nat, |i: int| bars[from + i].high)
}

/// A group with the extremes of its bars and of the bars after it.
pub open spec fn shape_of(bars: Seq<Bar>, group: Group) -> GroupShape {
    let s = group.start as int;
    let e = group.end as int;
    GroupShape {
        group,
        low: lowest_price(low_prices(bars, s, e + 1)),
        high: highest_price(high_prices(bars, s, e + 1)),
        future_low: order::lowest(lows(bars, e + 1, e + 1 + CONFIRM_BARS)),
        future_high: order::highest(highs(bars, e + 1, e + 1 + CONFIRM_BARS)),
    }
}

/// The shapes of the first `count` groups that enough bars follow.
pub open spec fn shapes_of(bars: Seq<Bar>, groups: Seq<Group>, count: int) -> Seq<GroupShape>
    decreases count,
{
    if count <= 0 {
        Seq::empty()
    } else {
        let rest = shapes_of(bars, groups, count - 1);
        let group = groups[count - 1];
        if group.end + 1 + CONFIRM_BARS > bars.len() {
            rest
        } else {
            rest.push(shape_of(bars, group))
        }
    }
}

/// The groups of a history whose confirmation can be told.
pub open spec fn history_shapes(bars: Seq<Bar>, measures: Seq<BarMeasure>) -> Seq<GroupShape> {
    let groups = groups_before(bars, marks(bars, measures), bars.len() as int);
    if bars.len() < MIN_HISTORY_MINUTES {
        Seq::empty()
    } else {
        shapes_of(bars, groups, groups.len() as int)
    }
}

fn shape(bars: &[Bar], group: Group) -> (out: GroupShape)
    requires
        group.start <= group.end,
        group.end + 1 + CONFIRM_BARS <= bars@.len(),
    ensures
        out == shape_of(bars@, group),
{
    let n: usize = bars.len();
    let mut low: Price = bars[group.start].low;
    let mut high: Price = bars[group.start].high;
    let ghost s = group.start as int;
    let mut i: usize = group.start + 1;
    while i <= group.end
        invariant
            group.start < i <= group.end + 1,
            group.end < n,
            n == bars@.len(),
            s == group.start,
            low == lowest_price(low_prices(bars@, s, i as int)),
            high == highest_price(high_prices(bars@, s, i as int)),
        decreases group.end + 1 - i,
    {
        proof {
            assert(low_prices(bars@, s, i + 1).drop_last() =~= low_prices(bars@, s, i as int));
            assert(high_prices(bars@, s, i + 1).drop_last() =~= high_prices(bars@, s, i as int));
        }
        if bars[i].low.at < low.at {
            low = bars[i].low;
        }
        if bars[i].high.at > high.at {
            high = bars[i].high;
        }
        i += 1;
    }
    let (future_low, future_high) = range_extremes(
        bars,
        group.end + 1,
        group.end + 1 + CONFIRM_BARS,
    );
    GroupShape { group, low, high, future_low, future_high }
}

/// The groups of a history whose confirmation can be told, with their extremes.
#[verifier::rlimit(50)]
#[verifier::spinoff_prover]
fn absorption_shapes(bars: &[Bar], measures: &[BarMeasure]) -> (out: Vec<GroupShape>)
    requires
        measures@.len() == bars@.len(),
        forall|i: int| 0 <= i < bars@.len() ==> clock::is_instant(#[trigger] bars@[i].ts_bucket),
    ensures
        out@ == history_shapes(bars@, measures@),
        forall|g: int|
            0 <= g < out@.len() ==> {
                &&& (#[trigger] out@[g]).group.start <= out@[g].group.end
                &&& out@[g].group.end + 1 + CONFIRM_BARS <= bars@.len()
            },
{
    let mut out: Vec<GroupShape> = Vec::new();
    let n: usize = bars.len();
    if n < MIN_HISTORY_MINUTES {
        return out;
    }
    let mut signs: Vec<i16> = Vec::new();
    let mut i: usize = 0;
    while i < n
        invariant
            i <= n,
            n == bars@.len(),
            n == measures@.len(),
            signs@ =~= marks(bars@, measures@).take(i as int),
        decreases n - i,
    {
        signs.push(mark_of(&bars[i], &measures[i]));
        i += 1;
    }
    proof {
        assert(signs@ =~= marks(bars@, measures@));
        law_groups(bars@, signs@, n as int);
    }
    let groups: Vec<Group> = group_marks(bars, &signs);
    let mut g: usize = 0;
    while g < groups.len()
        invariant
            g <= groups@.len(),
            n == bars@.len(),
            n >= MIN_HISTORY_MINUTES,
            forall|h: int|
                0 <= h < groups@.len() ==> (#[trigger] groups@[h]).start <= groups@[h].end < n,
            out@ == shapes_of(bars@, groups@, g as int),
            forall|h: int|
                0 <= h < out@.len() ==> {
                    &&& (#[trigger] out@[h]).group.start <= out@[h].group.end
                    &&& out@[h].group.end + 1 + CONFIRM_BARS <= n
                },
        decreases groups@.len() - g,
    {
        let group: Group = groups[g];
        assert(groups@[g as int].end < n);
        if group.end < n - CONFIRM_BARS {
            out.push(shape(bars, group));
        }
        g += 1;
    }
    out
}

/// Whether a bar confirms a group: it closes past the middle line of the group, and
/// the bars after the group do not break its extreme by more than a tick.
pub open spec fn confirms(shape: GroupShape, line: Key, close: Key) -> bool {
    if shape.group.direction > 0 {
        close >= line && shape.future_low >= shape.low.down_one
    } else {
        close <= line && shape.future_high <= shape.high.up_one
    }
}

/// The first bar after a group, from the `j`-th on, that confirms it.
pub open spec fn confirm_from(bars: Seq<Bar>, shape: GroupShape, line: Key, j: int) -> Option<int>
    decreases CONFIRM_BARS + 1 - j,
{
    if j > CONFIRM_BARS {
        None
    } else if confirms(shape, line, bars[shape.group.end + j].close) {
        Some(shape.group.end + j)
    } else {
        confirm_from(bars, shape, line, j + 1)
    }
}

/// The distances that matter to a group: from the lows where selling was absorbed,
/// from the highs where buying was.
pub open spec fn group_distances(measures: Seq<BarMeasure>, group: Group) -> Seq<Key> {
    Seq::new(
        (group.end - group.start + 1) as nat,
        |i: int|
            if group.direction > 0 {
                nearest(measures[group.start + i].low_distances)
            } else {
                nearest(measures[group.start + i].high_distances)
            },
    )
}

/// The event of a group that the bar at `confirm` confirms.
pub open spec fn event_of(
    bars: Seq<Bar>,
    measures: Seq<BarMeasure>,
    shape: GroupShape,
    confirm: int,
) -> AbsorptionEventData {
    let group = shape.group;
    AbsorptionEventData {
        direction: group.direction,
        start_ts: bars[group.start as int].ts_bucket,
        end_ts: (bars[group.end as int].ts_bucket + MINUTE_US) as i64,
        confirm_ts: (bars[confirm].ts_bucket + MINUTE_US) as i64,
        pivot_price: if group.direction > 0 {
            shape.low.at
        } else {
            shape.high.at
        },
        price_low: shape.low.at,
        price_high: shape.high.at,
        key_distance_ticks: order::lowest(group_distances(measures, group)),
        stacked_buy_imbalance: exists|i: int|
            group.start <= i <= group.end && (#[trigger] bars[i]).stacked_buy,
        stacked_sell_imbalance: exists|i: int|
            group.start <= i <= group.end && (#[trigger] bars[i]).stacked_sell,
        start_idx: group.start,
        end_idx: group.end,
        confirm_idx: confirm as usize,
    }
}

/// The events of the first `count` groups, given the middle line of each.
pub open spec fn events_of(
    bars: Seq<Bar>,
    measures: Seq<BarMeasure>,
    shapes: Seq<GroupShape>,
    lines: Seq<Key>,
    count: int,
) -> Seq<AbsorptionEventData>
    decreases count,
{
    if count <= 0 {
        Seq::empty()
    } else {
        let rest = events_of(bars, measures, shapes, lines, count - 1);
        match confirm_from(bars, shapes[count - 1], lines[count - 1], 1) {
            Some(confirm) => rest.push(event_of(bars, measures, shapes[count - 1], confirm)),
            None => rest,
        }
    }
}

/// Which imbalances were stacked in a group, and its fewest ticks from a key level.
fn group_facts(bars: &[Bar], measures: &[BarMeasure], group: Group) -> (out: (bool, bool, Key))
    requires
        group.start <= group.end < bars@.len(),
        measures@.len() == bars@.len(),
    ensures
        out.0 <==> exists|i: int|
            group.start <= i <= group.end && (#[trigger] bars@[i]).stacked_buy,
        out.1 <==> exists|i: int|
            group.start <= i <= group.end && (#[trigger] bars@[i]).stacked_sell,
        out.2 == order::lowest(group_distances(measures@, group)),
{
    let mut buy: bool = false;
    let mut sell: bool = false;
    let mut least: Key = KEY_INFINITY;
    let ghost distances = group_distances(measures@, group);
    let n: usize = bars.len();
    let mut i: usize = group.start;
    proof {
        assert(distances.take(0) =~= Seq::empty());
    }
    while i <= group.end
        invariant
            group.start <= i <= group.end + 1,
            group.end < n,
            n == bars@.len(),
            n == measures@.len(),
            distances == group_distances(measures@, group),
            buy <==> exists|j: int| group.start <= j < i && (#[trigger] bars@[j]).stacked_buy,
            sell <==> exists|j: int| group.start <= j < i && (#[trigger] bars@[j]).stacked_sell,
            least == order::lowest(distances.take(i - group.start)),
        decreases group.end + 1 - i,
    {
        let distance: Key = if group.direction > 0 {
            nearest_of(&measures[i].low_distances)
        } else {
            nearest_of(&measures[i].high_distances)
        };
        proof {
            let k = i - group.start;
            assert(distances.take(k + 1).drop_last() =~= distances.take(k));
            assert(distances[k] == distance);
            if bars@[i as int].stacked_buy {
            }
            if bars@[i as int].stacked_sell {
            }
        }
        buy = buy || bars[i].stacked_buy;
        sell = sell || bars[i].stacked_sell;
        least = lower_key(least, distance);
        i += 1;
    }
    proof {
        assert(distances.take(i - group.start) =~= distances);
    }
    (buy, sell, least)
}

/// The events of the groups of a history, given the middle line of each.
fn absorption_events(
    bars: &[Bar],
    measures: &[BarMeasure],
    shapes: &[GroupShape],
    lines: &[Key],
) -> (out: Vec<AbsorptionEventData>)
    requires
        measures@.len() == bars@.len(),
        lines@.len() == shapes@.len(),
        forall|i: int| 0 <= i < bars@.len() ==> clock::is_instant(#[trigger] bars@[i].ts_bucket),
        forall|g: int|
            0 <= g < shapes@.len() ==> {
                &&& (#[trigger] shapes@[g]).group.start <= shapes@[g].group.end
                &&& shapes@[g].group.end + 1 + CONFIRM_BARS <= bars@.len()
            },
    ensures
        out@ == events_of(bars@, measures@, shapes@, lines@, shapes@.len() as int),
{
    let mut out: Vec<AbsorptionEventData> = Vec::new();
    let n: usize = bars.len();
    let mut g: usize = 0;
    while g < shapes.len()
        invariant
            g <= shapes@.len(),
            n == bars@.len(),
            n == measures@.len(),
            lines@.len() == shapes@.len(),
            forall|i: int| 0 <= i < n ==> clock::is_instant(#[trigger] bars@[i].ts_bucket),
            forall|h: int|
                0 <= h < shapes@.len() ==> {
                    &&& (#[trigger] shapes@[h]).group.start <= shapes@[h].group.end
                    &&& shapes@[h].group.end + 1 + CONFIRM_BARS <= n
                },
            out@ == events_of(bars@, measures@, shapes@, lines@, g as int),
        decreases shapes@.len() - g,
    {
        let shape: GroupShape = shapes[g];
        let line: Key = lines[g];
        let group: Group = shape.group;
        assert(shapes@[g as int].group.end + 1 + CONFIRM_BARS <= n);
        let mut j: usize = 1;
        let mut confirm: Option<usize> = None;
        while j <= CONFIRM_BARS && confirm.is_none()
            invariant
                1 <= j <= CONFIRM_BARS + 1,
                n == bars@.len(),
                group == shape.group,
                group.end + 1 + CONFIRM_BARS <= n,
                confirm is None ==> confirm_from(bars@, shape, line, 1) == confirm_from(
                    bars@,
                    shape,
                    line,
                    j as int,
                ),
                confirm matches Some(c) ==> c < n && confirm_from(bars@, shape, line, 1) == Some(
                    c as int,
                ),
            decreases CONFIRM_BARS + 1 - j,
        {
            let close: Key = bars[group.end + j].close;
            let ok: bool = if group.direction > 0 {
                close >= line && shape.future_low >= shape.low.down_one
            } else {
                close <= line && shape.future_high <= shape.high.up_one
            };
            if ok {
                confirm = Some(group.end + j);
            }
            j += 1;
        }
        if let Some(c) = confirm {
            let (buy, sell, distance) = group_facts(bars, measures, group);
            proof {
                assert(clock::is_instant(bars@[group.end as int].ts_bucket));
                assert(clock::is_instant(bars@[c as int].ts_bucket));
            }
            out.push(
                AbsorptionEventData {
                    direction: group.direction,
                    start_ts: bars[group.start].ts_bucket,
                    end_ts: bars[group.end].ts_bucket + MINUTE_US,
                    confirm_ts: bars[c].ts_bucket + MINUTE_US,
                    pivot_price: if group.direction > 0 {
                        shape.low.at
                    } else {
                        shape.high.at
                    },
                    price_low: shape.low.at,
                    price_high: shape.high.at,
                    key_distance_ticks: distance,
                    stacked_buy_imbalance: buy,
                    stacked_sell_imbalance: sell,
                    start_idx: group.start,
                    end_idx: group.end,
                    confirm_idx: c,
                },
            );
        }
        g += 1;
    }
    out
}

/// How a bar is measured, given the key levels in force.
pub type BarGauge = spec_fn(Bar, KeyLevels) -> BarMeasure;

/// Where the middle line of a group lies.
pub type LineGauge = spec_fn(GroupShape) -> Key;

/// Whether a function measures every bar as `gauge` does.
pub open spec fn measures_as<F: Fn(&Bar, &KeyLevels) -> BarMeasure>(
    measure: F,
    gauge: BarGauge,
) -> bool {
    forall|bar: &Bar, levels: &KeyLevels, m: BarMeasure| #[trigger]
        call_ensures(measure, (bar, levels), m) ==> m == gauge(*bar, *levels)
}

/// Whether a function draws every middle line as `gauge` does.
pub open spec fn draws_as<F: Fn(&GroupShape) -> Key>(line: F, gauge: LineGauge) -> bool {
    forall|shape: &GroupShape, at: Key| #[trigger]
        call_ensures(line, (shape,), at) ==> at == gauge(*shape)
}

/// What is measured of the bars of a history.
pub open spec fn measured(bars: Seq<Bar>, gauge: BarGauge) -> Seq<BarMeasure> {
    Seq::new(bars.len(), |i: int| gauge(bars[i], levels_at(bars, i)))
}

/// The middle lines of groups.
pub open spec fn lines_of(shapes: Seq<GroupShape>, gauge: LineGauge) -> Seq<Key> {
    Seq::new(shapes.len(), |g: int| gauge(shapes[g]))
}

/// The events of a history whose bars and middle lines are measured by the given rules.
pub open spec fn all_events(bars: Seq<Bar>, gauge: BarGauge, line: LineGauge) -> Seq<
    AbsorptionEventData,
> {
    let measures = measured(bars, gauge);
    let shapes = history_shapes(bars, measures);
    events_of(bars, measures, shapes, lines_of(shapes, line), shapes.len() as int)
}

/// What was measured of the bars of a history, and its events, oldest first. `measure`
/// measures a bar against the key levels in force, `line` draws the middle line of a
/// group.
pub fn compute_absorption_all_history<
    F: Fn(&Bar, &KeyLevels) -> BarMeasure,
    G: Fn(&GroupShape) -> Key,
>(bars: &[Bar], measure: F, line: G) -> (out: (Vec<BarMeasure>, Vec<AbsorptionEventData>))
    requires
        forall|i: int| 0 <= i < bars@.len() ==> clock::is_instant(#[trigger] bars@[i].ts_bucket),
        forall|bar: &Bar, levels: &KeyLevels| #[trigger] call_requires(measure, (bar, levels)),
        forall|shape: &GroupShape| #[trigger] call_requires(line, (shape,)),
    ensures
        forall|gauge: BarGauge| #[trigger]
            measures_as(measure, gauge) ==> out.0@ == measured(bars@, gauge),
        forall|gauge: BarGauge, rule: LineGauge|
            #![trigger measures_as(measure, gauge), draws_as(line, rule)]
            measures_as(measure, gauge) && draws_as(line, rule) ==> out.1@ == all_events(
                bars@,
                gauge,
                rule,
            ),
{
    let levels: Vec<KeyLevels> = key_levels(bars);
    let mut measures: Vec<BarMeasure> = Vec::new();
    let mut i: usize = 0;
    while i < bars.len()
        invariant
            i <= bars@.len(),
            i == measures@.len(),
            levels@ == Seq::new(bars@.len(), |j: int| levels_at(bars@, j)),
            forall|bar: &Bar, held: &KeyLevels| #[trigger] call_requires(measure, (bar, held)),
            forall|gauge: BarGauge, j: int|
                #![trigger measures_as(measure, gauge), measures@[j]]
                measures_as(measure, gauge) && 0 <= j < i ==> measures@[j] == gauge(
                    bars@[j],
                    levels_at(bars@, j),
                ),
        decreases bars@.len() - i,
    {
        measures.push(measure(&bars[i], &levels[i]));
        i += 1;
    }
    let shapes: Vec<GroupShape> = absorption_shapes(bars, &measures);
    let mut lines: Vec<Key> = Vec::new();
    let mut g: usize = 0;
    while g < shapes.len()
        invariant
            g <= shapes@.len(),
            g == lines@.len(),
            forall|shape: &GroupShape| #[trigger] call_requires(line, (shape,)),
            forall|rule: LineGauge, h: int|
                #![trigger draws_as(line, rule), lines@[h]]
                draws_as(line, rule) && 0 <= h < g ==> lines@[h] == rule(shapes@[h]),
        decreases shapes@.len() - g,
    {
        lines.push(line(&shapes[g]));
        g += 1;
    }
    let events: Vec<AbsorptionEventData> = absorption_events(bars, &measures, &shapes, &lines);
    proof {
        assert forall|gauge: BarGauge| #[trigger] measures_as(measure, gauge) implies measures@
            == measured(bars@, gauge) by {
            assert(measures@ =~= measured(bars@, gauge));
        }
        assert forall|gauge: BarGauge, rule: LineGauge|
            #![trigger measures_as(measure, gauge), draws_as(line, rule)]
            measures_as(measure, gauge) && draws_as(line, rule) implies events@ == all_events(
            bars@,
            gauge,
            rule,
        ) by {
            assert(lines@ =~= lines_of(shapes@, rule));
        }
    }
    (measures, events)
}

/// Whether bars follow one another minute by minute.
pub open spec fn are_consecutive(bars: Seq<Bar>) -> bool {
    forall|i: int, j: int|
        0 <= i <= j < bars.len() ==> (#[trigger] bars[j]).ts_bucket - (
        #[trigger] bars[i]).ts_bucket == (j - i) * MINUTE_US
}

/// Where bars follow one another minute by minute, every bar of a group bears its mark.
#[verifier::rlimit(40)]
#[verifier::spinoff_prover]
proof fn lemma_groups_are_solid(bars: Seq<Bar>, signs: Seq<i16>, hi: int)
    requires
        0 <= hi <= signs.len(),
        signs.len() == bars.len(),
        signs.len() <= usize::MAX,
        are_consecutive(bars),
    ensures
        forall|g: int, i: int|
            0 <= g < groups_before(bars, signs, hi).len() && (#[trigger] groups_before(
                bars,
                signs,
                hi,
            )[g]).start <= i <= groups_before(bars, signs, hi)[g].end ==> #[trigger] signs[i]
                == groups_before(bars, signs, hi)[g].direction,
    decreases hi,
{
    if hi > 0 {
        lemma_groups_are_solid(bars, signs, hi - 1);
        law_groups(bars, signs, hi - 1);
        let rest = groups_before(bars, signs, hi - 1);
        let groups = groups_before(bars, signs, hi);
        let at = hi - 1;
        assert forall|g: int, i: int|
            0 <= g < groups.len() && (#[trigger] groups[g]).start <= i
                <= groups[g].end implies #[trigger] signs[i] == groups[g].direction by {
            if signs[at] != 0 && rest.len() > 0 && joins(rest.last(), bars, at, signs[at]) {
                let m = rest.len() - 1;
                assert(is_group(rest[m], signs, hi - 1));
                if g < m {
                    assert(groups[g] == rest[g]);
                } else if i < at {
                    let end = rest[m].end as int;
                    assert(bars[at].ts_bucket - bars[end].ts_bucket == (at - end) * MINUTE_US);
                    assert(at - end <= 1);
                    assert(rest[m].start <= i <= rest[m].end);
                }
            } else if g < rest.len() {
                assert(groups[g] == rest[g]);
            }
        }
    }
}

/// The shapes that can be told are those of some of the groups, in their order.
proof fn lemma_shapes(bars: Seq<Bar>, groups: Seq<Group>, count: int)
    requires
        0 <= count <= groups.len(),
        forall|g: int, h: int|
            0 <= g < h < groups.len() ==> (#[trigger] groups[g]).end < (#[trigger] groups[h]).start,
        forall|g: int| 0 <= g < groups.len() ==> (#[trigger] groups[g]).start <= groups[g].end,
    ensures
        forall|k: int|
            0 <= k < shapes_of(bars, groups, count).len() ==> {
                let shape = #[trigger] shapes_of(bars, groups, count)[k];
                &&& shape == shape_of(bars, shape.group)
                &&& shape.group.end + CONFIRM_BARS < bars.len()
                &&& exists|g: int| 0 <= g < count && groups[g] == shape.group
            },
        forall|j: int, k: int|
            0 <= j < k < shapes_of(bars, groups, count).len() ==> (#[trigger] shapes_of(
                bars,
                groups,
                count,
            )[j]).group.start < (#[trigger] shapes_of(bars, groups, count)[k]).group.start,
    decreases count,
{
    if count > 0 {
        lemma_shapes(bars, groups, count - 1);
        let rest = shapes_of(bars, groups, count - 1);
        let out = shapes_of(bars, groups, count);
        assert forall|k: int| 0 <= k < out.len() implies {
            let shape = #[trigger] out[k];
            &&& shape == shape_of(bars, shape.group)
            &&& shape.group.end + CONFIRM_BARS < bars.len()
            &&& exists|g: int| 0 <= g < count && groups[g] == shape.group
        } by {
            if k < rest.len() {
                let shape = rest[k];
                let g = choose|g: int| 0 <= g < count - 1 && groups[g] == shape.group;
                assert(groups[g] == out[k].group);
            } else {
                assert(groups[count - 1] == out[k].group);
            }
        }
        assert forall|j: int, k: int| 0 <= j < k < out.len() implies (#[trigger] out[j]).group.start
            < (#[trigger] out[k]).group.start by {
            if k < rest.len() {
                assert(rest[j].group.start < rest[k].group.start);
            } else {
                let shape = rest[j];
                let g = choose|g: int| 0 <= g < count - 1 && groups[g] == shape.group;
                assert(groups[g].end < groups[count - 1].start);
            }
        }
    }
}

proof fn lemma_confirm(bars: Seq<Bar>, shape: GroupShape, line: Key, j: int)
    requires
        1 <= j,
    ensures
        confirm_from(bars, shape, line, j) matches Some(at) ==> shape.group.end + j <= at
            <= shape.group.end + CONFIRM_BARS && confirms(shape, line, bars[at].close),
    decreases CONFIRM_BARS + 1 - j,
{
    if j <= CONFIRM_BARS {
        lemma_confirm(bars, shape, line, j + 1);
    }
}

/// Events are those of some of the groups, in their order.
proof fn lemma_events(
    bars: Seq<Bar>,
    measures: Seq<BarMeasure>,
    shapes: Seq<GroupShape>,
    lines: Seq<Key>,
    count: int,
)
    requires
        0 <= count <= shapes.len(),
        forall|j: int, k: int|
            0 <= j < k < shapes.len() ==> (#[trigger] shapes[j]).group.start < (
            #[trigger] shapes[k]).group.start,
    ensures
        forall|k: int|
            0 <= k < events_of(bars, measures, shapes, lines, count).len() ==> comes_of(
                #[trigger] events_of(bars, measures, shapes, lines, count)[k],
                bars,
                measures,
                shapes,
                count,
            ),
        forall|j: int, k: int|
            0 <= j < k < events_of(bars, measures, shapes, lines, count).len() ==> (
            #[trigger] events_of(bars, measures, shapes, lines, count)[j]).start_idx < (
            #[trigger] events_of(bars, measures, shapes, lines, count)[k]).start_idx,
    decreases count,
{
    if count > 0 {
        lemma_events(bars, measures, shapes, lines, count - 1);
        lemma_confirm(bars, shapes[count - 1], lines[count - 1], 1);
        let rest = events_of(bars, measures, shapes, lines, count - 1);
        let out = events_of(bars, measures, shapes, lines, count);
        assert forall|k: int| 0 <= k < out.len() implies comes_of(
            #[trigger] out[k],
            bars,
            measures,
            shapes,
            count,
        ) by {
            if k < rest.len() {
                assert(comes_of(rest[k], bars, measures, shapes, count - 1));
                let (g, at) = choose|g: int, at: int|
                    0 <= g < count - 1 && #[trigger] is_event(rest[k], bars, measures, shapes[g], at);
                assert(is_event(out[k], bars, measures, shapes[g], at));
            } else {
                let at = confirm_from(bars, shapes[count - 1], lines[count - 1], 1)->0;
                assert(is_event(out[k], bars, measures, shapes[count - 1], at));
            }
        }
        assert forall|j: int, k: int| 0 <= j < k < out.len() implies (#[trigger] out[j]).start_idx
            < (#[trigger] out[k]).start_idx by {
            if k < rest.len() {
                assert(rest[j].start_idx < rest[k].start_idx);
            } else {
                assert(comes_of(rest[j], bars, measures, shapes, count - 1));
                let (g, at) = choose|g: int, at: int|
                    0 <= g < count - 1 && #[trigger] is_event(rest[j], bars, measures, shapes[g], at);
                assert(shapes[g].group.start < shapes[count - 1].group.start);
            }
        }
    }
}

/// Whether an event is that of a group which the bar at `at` confirms, one of the few
/// after it.
spec fn is_event(
    e: AbsorptionEventData,
    bars: Seq<Bar>,
    measures: Seq<BarMeasure>,
    shape: GroupShape,
    at: int,
) -> bool {
    e == event_of(bars, measures, shape, at) && shape.group.end < at <= shape.group.end
        + CONFIRM_BARS
}

/// Whether an event is that of one of the first `count` groups.
spec fn comes_of(
    e: AbsorptionEventData,
    bars: Seq<Bar>,
    measures: Seq<BarMeasure>,
    shapes: Seq<GroupShape>,
    count: int,
) -> bool {
    exists|g: int, at: int| 0 <= g < count && #[trigger] is_event(e, bars, measures, shapes[g], at)
}

proof fn lemma_lowest_bounds(keys: Seq<Key>, i: int)
    requires
        0 <= i < keys.len(),
    ensures
        order::lowest(keys) <= keys[i],
    decreases keys.len(),
{
    if i < keys.len() - 1 {
        lemma_lowest_bounds(keys.drop_last(), i);
        assert(keys.drop_last()[i] == keys[i]);
    }
}

/// Whether the parts of an event agree. Its direction is 1 or -1. Where it is 1, selling
/// was absorbed: the pivot is the lowest price, sell imbalances were stacked, and every bar
/// of the event traded down by a share of at least 0.15. Where it is -1, buying was: the
/// pivot is the highest price, buy imbalances were stacked, and every bar traded up by as
/// much. It lies at most six ticks from a key level, and its instants are those of its
/// bars.
pub open spec fn is_sound_event(e: AbsorptionEventData, bars: Seq<Bar>) -> bool {
    &&& e.direction == 1 || e.direction == -1
    &&& e.start_idx <= e.end_idx < e.confirm_idx < bars.len()
    &&& e.start_ts == bars[e.start_idx as int].ts_bucket
    &&& e.end_ts == bars[e.end_idx as int].ts_bucket + MINUTE_US
    &&& e.confirm_ts == bars[e.confirm_idx as int].ts_bucket + MINUTE_US
    &&& e.direction == 1 ==> {
        &&& e.pivot_price == e.price_low
        &&& e.stacked_sell_imbalance
        &&& forall|i: int|
            e.start_idx <= i <= e.end_idx ==> (#[trigger] bars[i]).stacked_sell && bars[i].rdelta
                <= -RDELTA_ABS_MIN && bars[i].close > bars[i].open
    }
    &&& e.direction == -1 ==> {
        &&& e.pivot_price == e.price_high
        &&& e.stacked_buy_imbalance
        &&& forall|i: int|
            e.start_idx <= i <= e.end_idx ==> (#[trigger] bars[i]).stacked_buy && bars[i].rdelta
                >= RDELTA_ABS_MIN && bars[i].close < bars[i].open
    }
    &&& e.key_distance_ticks <= KEY_DIST_TICKS
}

/// Of bars that follow one another minute by minute, every event is sound, lasts no more
/// than thirty minutes and is confirmed one to three minutes after its end; events start
/// one after another; and a history of fewer than eight minutes has none.
#[verifier::rlimit(50)]
#[verifier::spinoff_prover]
pub proof fn law_events_are_sound(bars: Seq<Bar>, gauge: BarGauge, line: LineGauge)
    requires
        are_consecutive(bars),
        bars.len() <= usize::MAX,
        forall|i: int| 0 <= i < bars.len() ==> clock::is_instant(#[trigger] bars[i].ts_bucket),
    ensures
        bars.len() < MIN_HISTORY_MINUTES ==> all_events(bars, gauge, line).len() == 0,
        forall|k: int|
            0 <= k < all_events(bars, gauge, line).len() ==> {
                let e = #[trigger] all_events(bars, gauge, line)[k];
                &&& is_sound_event(e, bars)
                &&& e.end_ts - e.start_ts <= MAX_EVENT_MINUTES * MINUTE_US
                &&& MINUTE_US <= e.confirm_ts - e.end_ts <= CONFIRM_BARS * MINUTE_US
            },
        forall|j: int, k: int|
            0 <= j < k < all_events(bars, gauge, line).len() ==> (#[trigger] all_events(
                bars,
                gauge,
                line,
            )[j]).start_ts < (#[trigger] all_events(bars, gauge, line)[k]).start_ts,
{
    let measures = measured(bars, gauge);
    let signs = marks(bars, measures);
    let n = bars.len() as int;
    let groups = groups_before(bars, signs, n);
    let shapes = history_shapes(bars, measures);
    let lines = lines_of(shapes, line);
    let events = all_events(bars, gauge, line);
    if bars.len() >= MIN_HISTORY_MINUTES {
        law_groups(bars, signs, n);
        lemma_groups_are_solid(bars, signs, n);
        assert forall|g: int| 0 <= g < groups.len() implies (#[trigger] groups[g]).start
            <= groups[g].end by {
            assert(is_group(groups[g], signs, n));
        }
        lemma_shapes(bars, groups, groups.len() as int);
        lemma_events(bars, measures, shapes, lines, shapes.len() as int);
        assert forall|k: int| 0 <= k < events.len() implies {
            let e = #[trigger] events[k];
            &&& is_sound_event(e, bars)
            &&& e.end_ts - e.start_ts <= MAX_EVENT_MINUTES * MINUTE_US
            &&& MINUTE_US <= e.confirm_ts - e.end_ts <= CONFIRM_BARS * MINUTE_US
        } by {
            let e = events[k];
            assert(comes_of(e, bars, measures, shapes, shapes.len() as int));
            let (s, at) = choose|g: int, at: int|
                0 <= g < shapes.len() && #[trigger] is_event(e, bars, measures, shapes[g], at);
            let shape = shapes[s];
            let g = choose|g: int| 0 <= g < groups.len() && groups[g] == shape.group;
            let group = groups[g];
            assert(is_group(group, signs, n));
            lemma_event_is_sound(bars, measures, group, e, at);
        }
        assert forall|j: int, k: int| 0 <= j < k < events.len() implies (
        #[trigger] events[j]).start_ts < (#[trigger] events[k]).start_ts by {
            assert(events[j].start_idx < events[k].start_idx);
            assert(is_sound_event(events[j], bars));
            assert(is_sound_event(events[k], bars));
            let a = events[j].start_idx as int;
            let b = events[k].start_idx as int;
            assert(bars[b].ts_bucket - bars[a].ts_bucket == (b - a) * MINUTE_US);
        }
    }
}

proof fn lemma_event_is_sound(
    bars: Seq<Bar>,
    measures: Seq<BarMeasure>,
    group: Group,
    e: AbsorptionEventData,
    at: int,
)
    requires
        are_consecutive(bars),
        bars.len() <= usize::MAX,
        forall|i: int| 0 <= i < bars.len() ==> clock::is_instant(#[trigger] bars[i].ts_bucket),
        is_group(group, marks(bars, measures), bars.len() as int),
        forall|i: int|
            group.start <= i <= group.end ==> #[trigger] marks(bars, measures)[i]
                == group.direction,
        e == event_of(bars, measures, shape_of(bars, group), at),
        group.end < at <= group.end + CONFIRM_BARS,
        group.end + CONFIRM_BARS < bars.len(),
    ensures
        is_sound_event(e, bars),
        e.end_ts - e.start_ts <= MAX_EVENT_MINUTES * MINUTE_US,
        MINUTE_US <= e.confirm_ts - e.end_ts <= CONFIRM_BARS * MINUTE_US,
{
    let s = group.start as int;
    let t = group.end as int;
    let signs = marks(bars, measures);
    assert forall|i: int| s <= i <= t implies mark(#[trigger] bars[i], measures[i])
        == group.direction by {
        assert(signs[i] == group.direction);
    }
    assert(mark(bars[s], measures[s]) == group.direction);
    assert(bars[t].ts_bucket - bars[s].ts_bucket == (t - s) * MINUTE_US);
    assert(bars[at].ts_bucket - bars[t].ts_bucket == (at - t) * MINUTE_US);
    let distances = group_distances(measures, group);
    lemma_lowest_bounds(distances, 0);
    assert(distances[0] == if group.direction > 0 {
        nearest(measures[s].low_distances)
    } else {
        nearest(measures[s].high_distances)
    });
}

/// The name of an event by its direction.
pub fn event_type(direction: i16) -> (out: &'static str)
    ensures
        out@ == if direction > 0 {
            "bullish_absorption"@
        } else {
            "bearish_absorption"@
        },
{
    if direction > 0 {
        "bullish_absorption"
    } else {
        "bearish_absorption"
    }
}

/// The side whose flow was absorbed.
pub fn trigger_side(direction: i16) -> (out: &'static str)
    ensures
        out@ == if direction > 0 {
            "sell"@
        } else {
            "buy"@
        },
{
    if direction > 0 {
        "sell"
    } else {
        "buy"
    }
}

/// Whether spot trading bears an event out, given its two confirmation scores.
pub fn spot_confirm(flow_score: Key, whale_score: Key) -> (out: bool)
    ensures
        out == (flow_score > 0 || whale_score > 0),
{
    flow_score > 0 || whale_score > 0
}

impl Confirmed for AbsorptionEventData {
    open spec fn known_at(&self) -> i64 {
        self.confirm_ts
    }

    fn known_ts(&self) -> (out: i64) {
        self.confirm_ts
    }
}

/// The events that become known at the end of the minute that starts at `ts_bucket`.
pub fn detect_absorption_events(all_events: &[AbsorptionEventData], ts_bucket: i64) -> (out: Vec<
    AbsorptionEventData,
>)
    requires
        clock::is_instant(ts_bucket),
    ensures
        out@ == events::known_with(all_events@, ts_bucket),
{
    current_events(all_events, ts_bucket)
}

/// The absorption indicator.
pub struct I06Absorption;

impl I06Absorption {
    /// The code of the indicator.
    pub fn code(&self) -> (out: &'static str)
        ensures
            out@ == "absorption"@,
    {
        "absorption"
    }

    /// The report of a minute, given all events and the lengths of the histories they
    /// were found in. Every event becomes a row.
    pub fn evaluate(
        &self,
        all_events: &[AbsorptionEventData],
        futures_minutes: usize,
        spot_minutes: usize,
    ) -> (out: EventReport<AbsorptionEventData>)
        ensures
            out.listed@ == all_events@,
            out.rows@ == all_events@,
            out.covered_minutes == events::covered(futures_minutes, spot_minutes),
    {
        EventReport {
            listed: copied(all_events),
            rows: copied(all_events),
            covered_minutes: covered_minutes(futures_minutes, spot_minutes),
        }
    }
}

/// Whether a bar absorbs selling, or buying: flow of that side of 0.15 or more in size with
/// its imbalances stacked, in a range of four ticks or more, that the bar closes against and at
/// least 0.7 of its range away from its extreme, which lies six ticks or less from a key level.
pub open spec fn absorbs(bar: Bar, m: BarMeasure, selling: bool) -> bool {
    &&& MIN_RANGE <= m.range
    &&& if selling {
        &&& bar.stacked_sell
        &&& bar.rdelta <= -RDELTA_ABS_MIN
        &&& bar.open < bar.close
        &&& ETA_REJECT <= m.reject_bull
        &&& exists|d: int| 0 <= d < 6 && #[trigger] m.low_distances[d] <= KEY_DIST_TICKS
    } else {
        &&& bar.stacked_buy
        &&& RDELTA_ABS_MIN <= bar.rdelta
        &&& bar.close < bar.open
        &&& ETA_REJECT <= m.reject_bear
        &&& exists|d: int| 0 <= d < 6 && #[trigger] m.high_distances[d] <= KEY_DIST_TICKS
    }
}

/// A bar is marked 1 exactly where it absorbs selling and not buying, and -1 exactly where it
/// absorbs buying and not selling; there is no other mark but 0.
pub proof fn law_marks(bar: Bar, m: BarMeasure)
    ensures
        mark(bar, m) == 1 <==> absorbs(bar, m, true) && !absorbs(bar, m, false),
        mark(bar, m) == -1 <==> absorbs(bar, m, false) && !absorbs(bar, m, true),
        mark(bar, m) == 1 || mark(bar, m) == -1 || mark(bar, m) == 0,
{
    lemma_nearest(m.low_distances);
    lemma_nearest(m.high_distances);
}

proof fn lemma_nearest(distances: [i64; 6])
    ensures
        nearest(distances) <= KEY_DIST_TICKS <==> exists|d: int|
            0 <= d < 6 && #[trigger] distances[d] <= KEY_DIST_TICKS,
{
    order::law_lowest(distances@, (KEY_DIST_TICKS + 1) as i64);
    if exists|d: int| 0 <= d < 6 && #[trigger] distances[d] <= KEY_DIST_TICKS {
        let d = choose|d: int| 0 <= d < 6 && #[trigger] distances[d] <= KEY_DIST_TICKS;
        assert(distances@[d] <= KEY_DIST_TICKS);
    }
    if nearest(distances) <= KEY_DIST_TICKS {
        let d = choose|d: int| 0 <= d < distances@.len() && distances@[d] < KEY_DIST_TICKS + 1;
        assert(distances[d] <= KEY_DIST_TICKS);
    }
}

/// Whether a shape is that of the bars from one place to another: its low is that of the
/// first of them whose low none undercuts, its high that of the first whose high none
/// exceeds, and the lowest low and the highest high after it are those of the three bars that
/// follow.
pub open spec fn is_shape(
    shape: GroupShape,
    bars: Seq<Bar>,
    direction: i16,
    s: int,
    e: int,
) -> bool {
    &&& shape.group.direction == direction && shape.group.start == s && shape.group.end == e
    &&& exists|i: int| #[trigger] is_first_lowest(bars, s, e, i) && bars[i].low == shape.low
    &&& exists|i: int| #[trigger] is_first_highest(bars, s, e, i) && bars[i].high == shape.high
    &&& shape.future_low <= KEY_INFINITY && -KEY_INFINITY <= shape.future_high
    &&& forall|d: int| 1 <= d <= 3 ==> shape.future_low <= (#[trigger] bars[e + d]).low.at
    &&& shape.future_low == KEY_INFINITY || exists|d: int|
        1 <= d <= 3 && (#[trigger] bars[e + d]).low.at == shape.future_low
    &&& forall|d: int| 1 <= d <= 3 ==> (#[trigger] bars[e + d]).high.at <= shape.future_high
    &&& shape.future_high == -KEY_INFINITY || exists|d: int|
        1 <= d <= 3 && (#[trigger] bars[e + d]).high.at == shape.future_high
}

/// Whether a bar is the first of a run with its lowest low.
pub open spec fn is_first_lowest(bars: Seq<Bar>, s: int, e: int, i: int) -> bool {
    &&& s <= i <= e
    &&& forall|k: int| s <= k < i ==> bars[i].low.at < (#[trigger] bars[k]).low.at
    &&& forall|k: int| i <= k <= e ==> bars[i].low.at <= (#[trigger] bars[k]).low.at
}

/// Whether a bar is the first of a run with its highest high.
pub open spec fn is_first_highest(bars: Seq<Bar>, s: int, e: int, i: int) -> bool {
    &&& s <= i <= e
    &&& forall|k: int| s <= k < i ==> (#[trigger] bars[k]).high.at < bars[i].high.at
    &&& forall|k: int| i <= k <= e ==> (#[trigger] bars[k]).high.at <= bars[i].high.at
}

proof fn lemma_first_extremes(bars: Seq<Bar>, s: int, e: int) -> (found: (int, int))
    requires
        0 <= s <= e < bars.len(),
    ensures
        is_first_lowest(bars, s, e, found.0),
        lowest_price(low_prices(bars, s, e + 1)) == bars[found.0].low,
        is_first_highest(bars, s, e, found.1),
        highest_price(high_prices(bars, s, e + 1)) == bars[found.1].high,
    decreases e - s,
{
    let lows = low_prices(bars, s, e + 1);
    let highs = high_prices(bars, s, e + 1);
    if s == e {
        (s, s)
    } else {
        let (l, h) = lemma_first_extremes(bars, s, e - 1);
        assert(lows.drop_last() =~= low_prices(bars, s, e));
        assert(highs.drop_last() =~= high_prices(bars, s, e));
        let low = if bars[e].low.at < bars[l].low.at {
            e
        } else {
            l
        };
        let high = if bars[e].high.at > bars[h].high.at {
            e
        } else {
            h
        };
        (low, high)
    }
}

proof fn lemma_shape(bars: Seq<Bar>, group: Group)
    requires
        group.start <= group.end,
        group.end + 3 < bars.len(),
    ensures
        is_shape(
            shape_of(bars, group),
            bars,
            group.direction,
            group.start as int,
            group.end as int,
        ),
{
    let s = group.start as int;
    let e = group.end as int;
    let shape = shape_of(bars, group);
    let (l, h) = lemma_first_extremes(bars, s, e);
    let low = lows(bars, e + 1, e + 4);
    let high = highs(bars, e + 1, e + 4);
    order::law_lowest(low, shape.future_low);
    order::law_highest(high, shape.future_high);
    assert forall|d: int| 1 <= d <= 3 implies shape.future_low <= (
    #[trigger] bars[e + d]).low.at by {
        assert(low[d - 1] == bars[e + d].low.at);
    }
    assert forall|d: int| 1 <= d <= 3 implies (#[trigger] bars[e + d]).high.at
        <= shape.future_high by {
        assert(high[d - 1] == bars[e + d].high.at);
    }
    if low.contains(shape.future_low) {
        let d = choose|d: int| 0 <= d < low.len() && low[d] == shape.future_low;
        assert(bars[e + (d + 1)].low.at == shape.future_low);
    }
    if high.contains(shape.future_high) {
        let d = choose|d: int| 0 <= d < high.len() && high[d] == shape.future_high;
        assert(bars[e + (d + 1)].high.at == shape.future_high);
    }
}

/// There is one shape only of the bars from one place to another.
proof fn lemma_one_shape(
    a: GroupShape,
    b: GroupShape,
    bars: Seq<Bar>,
    direction: i16,
    s: int,
    e: int,
)
    requires
        is_shape(a, bars, direction, s, e),
        is_shape(b, bars, direction, s, e),
    ensures
        a == b,
{
    let i = choose|i: int| #[trigger] is_first_lowest(bars, s, e, i) && bars[i].low == a.low;
    let j = choose|j: int| #[trigger] is_first_lowest(bars, s, e, j) && bars[j].low == b.low;
    if i < j {
        assert(bars[j].low.at < bars[i].low.at);
    }
    if j < i {
        assert(bars[i].low.at < bars[j].low.at);
    }
    let k = choose|k: int| #[trigger] is_first_highest(bars, s, e, k) && bars[k].high == a.high;
    let m = choose|m: int| #[trigger] is_first_highest(bars, s, e, m) && bars[m].high == b.high;
    if k < m {
        assert(bars[k].high.at < bars[m].high.at);
    }
    if m < k {
        assert(bars[m].high.at < bars[k].high.at);
    }
    assert(a.future_low == b.future_low) by {
        assert(bars[e + 1].low.at >= a.future_low && bars[e + 2].low.at >= a.future_low && bars[e
            + 3].low.at >= a.future_low);
        assert(bars[e + 1].low.at >= b.future_low && bars[e + 2].low.at >= b.future_low && bars[e
            + 3].low.at >= b.future_low);
    }
    assert(a.future_high == b.future_high) by {
        assert(bars[e + 1].high.at <= a.future_high && bars[e + 2].high.at <= a.future_high && bars[e
            + 3].high.at <= a.future_high);
        assert(bars[e + 1].high.at <= b.future_high && bars[e + 2].high.at <= b.future_high && bars[e
            + 3].high.at <= b.future_high);
    }
}

/// Whether the pivot of a run holds: none of the three bars after it trades more than a tick
/// beyond the extreme of the run, below its low where selling was absorbed, above its high
/// where buying was.
pub open spec fn pivot_holds(bars: Seq<Bar>, shape: GroupShape, e: int) -> bool {
    if shape.group.direction > 0 {
        &&& shape.low.down_one <= KEY_INFINITY
        &&& forall|d: int| 1 <= d <= 3 ==> shape.low.down_one <= (#[trigger] bars[e + d]).low.at
    } else {
        &&& -KEY_INFINITY <= shape.high.up_one
        &&& forall|d: int| 1 <= d <= 3 ==> (#[trigger] bars[e + d]).high.at <= shape.high.up_one
    }
}

/// Whether a bar closes on the far side of the middle line of a run: at or above it where
/// selling was absorbed, at or below it where buying was.
pub open spec fn closes_away(bar: Bar, shape: GroupShape, line: Key) -> bool {
    if shape.group.direction > 0 {
        line <= bar.close
    } else {
        bar.close <= line
    }
}

/// Whether a run of bars is an absorption that a bar confirms: its pivot holds, and the bar is
/// the first of the three after it that closes on the far side of the middle line.
pub open spec fn is_confirmed_run(
    bars: Seq<Bar>,
    shape: GroupShape,
    line: Key,
    e: int,
    c: int,
) -> bool {
    &&& e < c <= e + 3
    &&& pivot_holds(bars, shape, e)
    &&& closes_away(bars[c], shape, line)
    &&& forall|i: int| e < i < c ==> !closes_away(#[trigger] bars[i], shape, line)
}

proof fn lemma_holds(bars: Seq<Bar>, shape: GroupShape, s: int, e: int)
    requires
        is_shape(shape, bars, shape.group.direction, s, e),
    ensures
        shape.group.direction > 0 ==> (shape.future_low >= shape.low.down_one <==> pivot_holds(
            bars,
            shape,
            e,
        )),
        shape.group.direction <= 0 ==> (shape.future_high <= shape.high.up_one <==> pivot_holds(
            bars,
            shape,
            e,
        )),
{
    assert(bars[e + 1].low.at >= shape.future_low && bars[e + 2].low.at >= shape.future_low && bars[e
        + 3].low.at >= shape.future_low);
    assert(bars[e + 1].high.at <= shape.future_high && bars[e + 2].high.at <= shape.future_high
        && bars[e + 3].high.at <= shape.future_high);
}

proof fn lemma_confirmed(bars: Seq<Bar>, shape: GroupShape, line: Key, s: int, e: int, j: int)
    requires
        is_shape(shape, bars, shape.group.direction, s, e),
        1 <= j,
    ensures
        confirm_from(bars, shape, line, j) matches Some(c) ==> pivot_holds(bars, shape, e) && e + j
            <= c <= e + 3 && closes_away(bars[c], shape, line) && forall|i: int|
            e + j <= i < c ==> !closes_away(#[trigger] bars[i], shape, line),
        confirm_from(bars, shape, line, j) is None && pivot_holds(bars, shape, e) ==> forall|i: int|
            e + j <= i <= e + 3 ==> !closes_away(#[trigger] bars[i], shape, line),
    decreases 4 - j,
{
    lemma_holds(bars, shape, s, e);
    if j <= 3 {
        lemma_confirmed(bars, shape, line, s, e, j + 1);
    }
}

/// Whether an event is that of a run of bars: it starts and ends with bars that absorb flow of
/// its side, spans no more than thirty bars, its pivot holds and it is confirmed.
pub open spec fn is_absorption(
    e: AbsorptionEventData,
    bars: Seq<Bar>,
    measures: Seq<BarMeasure>,
    line: LineGauge,
    shape: GroupShape,
) -> bool {
    let s = e.start_idx as int;
    let t = e.end_idx as int;
    &&& e.direction == 1 || e.direction == -1
    &&& 0 <= s <= t < s + 30 && t + 3 < bars.len()
    &&& absorbs(bars[s], measures[s], e.direction == 1)
    &&& absorbs(bars[t], measures[t], e.direction == 1)
    &&& is_shape(shape, bars, e.direction, s, t)
    &&& is_confirmed_run(bars, shape, line(shape), t, e.confirm_idx as int)
    &&& tells_of(e, bars, shape)
}

/// Whether an event tells of a run of bars.
pub open spec fn tells_of(e: AbsorptionEventData, bars: Seq<Bar>, shape: GroupShape) -> bool {
    let s = e.start_idx as int;
    let t = e.end_idx as int;
    &&& e.direction == shape.group.direction
    &&& s == shape.group.start && t == shape.group.end
    &&& e.start_ts == bars[s].ts_bucket
    &&& e.end_ts == bars[t].ts_bucket + 60_000_000
    &&& e.confirm_ts == bars[e.confirm_idx as int].ts_bucket + 60_000_000
    &&& e.price_low == shape.low.at && e.price_high == shape.high.at
    &&& e.direction > 0 ==> e.pivot_price == shape.low.at
    &&& e.direction <= 0 ==> e.pivot_price == shape.high.at
    &&& e.stacked_buy_imbalance <==> exists|i: int| s <= i <= t && (#[trigger] bars[i]).stacked_buy
    &&& e.stacked_sell_imbalance <==> exists|i: int|
        s <= i <= t && (#[trigger] bars[i]).stacked_sell
}

/// The fewest ticks that an event tells are no more than those from the extreme of any of its
/// bars to any key level, and are those of one of them, or infinity.
pub proof fn law_key_distance(
    bars: Seq<Bar>,
    measures: Seq<BarMeasure>,
    shape: GroupShape,
    confirm: int,
    i: int,
    d: int,
)
    requires
        shape.group.start <= i <= shape.group.end,
        0 <= d < 6,
    ensures
        shape.group.direction > 0 ==> event_of(bars, measures, shape, confirm).key_distance_ticks
            <= measures[i].low_distances[d],
        shape.group.direction <= 0 ==> event_of(bars, measures, shape, confirm).key_distance_ticks
            <= measures[i].high_distances[d],
{
    let all = group_distances(measures, shape.group);
    let k = i - shape.group.start;
    lemma_lowest_bounds(all, k);
    if shape.group.direction > 0 {
        assert(all[k] == nearest(measures[i].low_distances));
        lemma_lowest_bounds(measures[i].low_distances@, d);
    } else {
        assert(all[k] == nearest(measures[i].high_distances));
        lemma_lowest_bounds(measures[i].high_distances@, d);
    }
}

/// Every event of a history is that of a run of bars that absorb flow and whose pivot holds;
/// a history of fewer than eight bars has none.
#[verifier::rlimit(40)]
#[verifier::spinoff_prover]
pub proof fn law_every_event_is_an_absorption(
    bars: Seq<Bar>,
    gauge: BarGauge,
    line: LineGauge,
    k: int,
)
    requires
        bars.len() <= usize::MAX,
        forall|i: int| 0 <= i < bars.len() ==> clock::is_instant((#[trigger] bars[i]).ts_bucket),
        0 <= k < all_events(bars, gauge, line).len(),
    ensures
        bars.len() >= 8,
        exists|shape: GroupShape| #[trigger]
            is_absorption(
                all_events(bars, gauge, line)[k],
                bars,
                measured(bars, gauge),
                line,
                shape,
            ),
{
    let measures = measured(bars, gauge);
    let signs = marks(bars, measures);
    let n = bars.len() as int;
    let groups = groups_before(bars, signs, n);
    let shapes = history_shapes(bars, measures);
    law_groups(bars, signs, n);
    assert forall|g: int| 0 <= g < groups.len() implies (#[trigger] groups[g]).start
        <= groups[g].end by {
        assert(is_group(groups[g], signs, n));
    }
    lemma_shapes(bars, groups, groups.len() as int);
    let g = lemma_event_of_shape(bars, measures, shapes, line, shapes.len() as int, k);
    let shape = shapes[g];
    let h = choose|h: int| 0 <= h < groups.len() && groups[h] == shape.group;
    assert(is_group(groups[h], signs, n));
    lemma_group_event(bars, measures, line, shape.group);
    assert(is_absorption(all_events(bars, gauge, line)[k], bars, measures, line, shape));
}

proof fn lemma_group_event(
    bars: Seq<Bar>,
    measures: Seq<BarMeasure>,
    line: LineGauge,
    group: Group,
)
    requires
        bars.len() <= usize::MAX,
        forall|i: int| 0 <= i < bars.len() ==> clock::is_instant((#[trigger] bars[i]).ts_bucket),
        is_group(group, marks(bars, measures), bars.len() as int),
        group.end + 3 < bars.len(),
        confirm_from(bars, shape_of(bars, group), line(shape_of(bars, group)), 1) is Some,
    ensures
        is_absorption(
            event_of(
                bars,
                measures,
                shape_of(bars, group),
                confirm_from(bars, shape_of(bars, group), line(shape_of(bars, group)), 1)->0,
            ),
            bars,
            measures,
            line,
            shape_of(bars, group),
        ),
{
    let shape = shape_of(bars, group);
    let s = group.start as int;
    let t = group.end as int;
    let signs = marks(bars, measures);
    law_marks(bars[s], measures[s]);
    law_marks(bars[t], measures[t]);
    lemma_shape(bars, group);
    lemma_confirmed(bars, shape, line(shape), s, t, 1);
    let c = confirm_from(bars, shape, line(shape), 1)->0;
    assert(signs[s] == mark(bars[s], measures[s]) && signs[t] == mark(bars[t], measures[t]));
    assert(clock::is_instant(bars[t].ts_bucket));
    assert(clock::is_instant(bars[c].ts_bucket));
}

proof fn lemma_event_of_shape(
    bars: Seq<Bar>,
    measures: Seq<BarMeasure>,
    shapes: Seq<GroupShape>,
    line: LineGauge,
    count: int,
    k: int,
) -> (g: int)
    requires
        0 <= count <= shapes.len(),
        0 <= k < events_of(bars, measures, shapes, lines_of(shapes, line), count).len(),
    ensures
        0 <= g < count,
        confirm_from(bars, shapes[g], line(shapes[g]), 1) is Some,
        events_of(bars, measures, shapes, lines_of(shapes, line), count)[k] == event_of(
            bars,
            measures,
            shapes[g],
            confirm_from(bars, shapes[g], line(shapes[g]), 1)->0,
        ),
    decreases count,
{
    let lines = lines_of(shapes, line);
    let rest = events_of(bars, measures, shapes, lines, count - 1);
    if k < rest.len() {
        lemma_event_of_shape(bars, measures, shapes, line, count - 1, k)
    } else {
        assert(lines[count - 1] == line(shapes[count - 1]));
        count - 1
    }
}

/// Whether bars from one place to another are a run that absorbs flow of one side: each of
/// them does and absorbs none of the other, the bar before does not, and the bar after does
/// not either or the run has thirty bars already.
pub open spec fn is_run(
    bars: Seq<Bar>,
    measures: Seq<BarMeasure>,
    s: int,
    e: int,
    selling: bool,
) -> bool {
    &&& 0 <= s <= e < s + 30 && e < bars.len()
    &&& forall|i: int| s <= i <= e ==> #[trigger] absorbs_only(bars, measures, i, selling)
    &&& s > 0 ==> !absorbs_only(bars, measures, s - 1, selling)
    &&& e == s + 29 || e + 1 == bars.len() || !absorbs_only(bars, measures, e + 1, selling)
}

/// Whether a bar absorbs flow of one side and none of the other.
pub open spec fn absorbs_only(
    bars: Seq<Bar>,
    measures: Seq<BarMeasure>,
    i: int,
    selling: bool,
) -> bool {
    absorbs(bars[i], measures[i], selling) && !absorbs(bars[i], measures[i], !selling)
}

#[verifier::rlimit(40)]
proof fn lemma_run_is_grouped(
    bars: Seq<Bar>,
    measures: Seq<BarMeasure>,
    s: int,
    e: int,
    selling: bool,
    hi: int,
)
    requires
        bars.len() <= usize::MAX,
        are_consecutive(bars),
        is_run(bars, measures, s, e, selling),
        s < hi <= e + 1,
    ensures
        groups_before(bars, marks(bars, measures), hi).len() > 0,
        groups_before(bars, marks(bars, measures), hi).last() == (Group {
            direction: if selling {
                1
            } else {
                (-1) as i16
            },
            start: s as usize,
            end: (hi - 1) as usize,
        }),
    decreases hi,
{
    let signs = marks(bars, measures);
    let rest = groups_before(bars, signs, hi - 1);
    let i = hi - 1;
    assert(absorbs_only(bars, measures, i, selling));
    law_marks(bars[i], measures[i]);
    assert(signs[i] == mark(bars[i], measures[i]));
    law_groups(bars, signs, hi - 1);
    if hi - 1 > s {
        lemma_run_is_grouped(bars, measures, s, e, selling, hi - 1);
        assert(bars[i].ts_bucket - bars[i - 1].ts_bucket == MINUTE_US);
    } else if rest.len() > 0 {
        let last = rest[rest.len() - 1];
        assert(is_group(last, signs, hi - 1));
        let end = last.end as int;
        if end == s - 1 {
            law_marks(bars[s - 1], measures[s - 1]);
            assert(signs[s - 1] == mark(bars[s - 1], measures[s - 1]));
            assert(last.direction != signs[i]);
        } else {
            assert(bars[i].ts_bucket - bars[end].ts_bucket == (i - end) * MINUTE_US);
            assert((i - end) * MINUTE_US >= 2 * MINUTE_US) by (nonlinear_arith)
                requires
                    i - end >= 2,
            ;
            assert(clock::whole_minutes(bars[i].ts_bucket - bars[end].ts_bucket) >= 2);
        }
    }
}

proof fn lemma_run_stays(
    bars: Seq<Bar>,
    measures: Seq<BarMeasure>,
    s: int,
    e: int,
    selling: bool,
    hi: int,
) -> (g: int)
    requires
        bars.len() <= usize::MAX,
        are_consecutive(bars),
        is_run(bars, measures, s, e, selling),
        e < hi <= bars.len(),
    ensures
        0 <= g < groups_before(bars, marks(bars, measures), hi).len(),
        groups_before(bars, marks(bars, measures), hi)[g] == (Group {
            direction: if selling {
                1
            } else {
                (-1) as i16
            },
            start: s as usize,
            end: e as usize,
        }),
    decreases hi,
{
    let signs = marks(bars, measures);
    let all = groups_before(bars, signs, hi);
    if hi == e + 1 {
        lemma_run_is_grouped(bars, measures, s, e, selling, hi);
        all.len() - 1
    } else {
        let rest = groups_before(bars, signs, hi - 1);
        let i = hi - 1;
        let g = lemma_run_stays(bars, measures, s, e, selling, hi - 1);
        law_marks(bars[i], measures[i]);
        assert(signs[i] == mark(bars[i], measures[i]));
        if g == rest.len() - 1 {
            if i == e + 1 {
                assert(bars[i].ts_bucket - bars[e].ts_bucket == MINUTE_US);
                assert(!joins(rest.last(), bars, i, signs[i]) || signs[i] == 0);
            } else {
                assert(bars[i].ts_bucket - bars[e].ts_bucket == (i - e) * MINUTE_US);
                assert((i - e) * MINUTE_US >= 2 * MINUTE_US) by (nonlinear_arith)
                    requires
                        i - e >= 2,
                ;
                assert(clock::whole_minutes(bars[i].ts_bucket - bars[e].ts_bucket) >= 2);
            }
        }
        assert(all[g] == rest[g]);
        g
    }
}

/// Of bars that follow one another minute by minute, at least eight of them, every run that
/// absorbs flow of one side, whose pivot holds and that is confirmed has its event.
#[verifier::rlimit(40)]
#[verifier::spinoff_prover]
pub proof fn law_every_absorption_is_found(
    bars: Seq<Bar>,
    gauge: BarGauge,
    line: LineGauge,
    s: int,
    e: int,
    selling: bool,
    shape: GroupShape,
    c: int,
)
    requires
        8 <= bars.len() <= usize::MAX,
        are_consecutive(bars),
        forall|i: int| 0 <= i < bars.len() ==> clock::is_instant((#[trigger] bars[i]).ts_bucket),
        is_run(bars, measured(bars, gauge), s, e, selling),
        e + 3 < bars.len(),
        is_shape(
            shape,
            bars,
            if selling {
                1
            } else {
                (-1) as i16
            },
            s,
            e,
        ),
        is_confirmed_run(bars, shape, line(shape), e, c),
    ensures
        exists|k: int|
            0 <= k < all_events(bars, gauge, line).len() && {
                let found = #[trigger] all_events(bars, gauge, line)[k];
                tells_of(found, bars, shape) && found.confirm_idx == c
            },
{
    let measures = measured(bars, gauge);
    let signs = marks(bars, measures);
    let n = bars.len() as int;
    let groups = groups_before(bars, signs, n);
    let shapes = history_shapes(bars, measures);
    let lines = lines_of(shapes, line);
    let g = lemma_run_stays(bars, measures, s, e, selling, n);
    let group = groups[g];
    lemma_shape(bars, group);
    lemma_one_shape(shape, shape_of(bars, group), bars, group.direction, s, e);
    let h = lemma_shape_is_told(bars, groups, groups.len() as int, g);
    assert(shapes[h] == shape);
    assert(lines[h] == line(shape));
    lemma_confirmed(bars, shape, line(shape), s, e, 1);
    match confirm_from(bars, shape, line(shape), 1) {
        Some(found) => {
            if found < c {
                assert(!closes_away(bars[found], shape, line(shape)));
            }
            if c < found {
                assert(!closes_away(bars[c], shape, line(shape)));
            }
        },
        None => {
            assert(!closes_away(bars[c], shape, line(shape)));
        },
    }
    let k = lemma_event_is_told(bars, measures, shapes, lines, shapes.len() as int, h, c);
    let found = all_events(bars, gauge, line)[k];
    assert(clock::is_instant(bars[e].ts_bucket));
    assert(clock::is_instant(bars[c].ts_bucket));
    assert(tells_of(found, bars, shape) && found.confirm_idx == c);
}

proof fn lemma_shape_is_told(bars: Seq<Bar>, groups: Seq<Group>, count: int, g: int) -> (h: int)
    requires
        0 <= g < count <= groups.len(),
        groups[g].end + 3 < bars.len(),
    ensures
        0 <= h < shapes_of(bars, groups, count).len(),
        shapes_of(bars, groups, count)[h] == shape_of(bars, groups[g]),
    decreases count,
{
    if g == count - 1 {
        shapes_of(bars, groups, count).len() - 1
    } else {
        lemma_shape_is_told(bars, groups, count - 1, g)
    }
}

proof fn lemma_event_is_told(
    bars: Seq<Bar>,
    measures: Seq<BarMeasure>,
    shapes: Seq<GroupShape>,
    lines: Seq<Key>,
    count: int,
    h: int,
    c: int,
) -> (k: int)
    requires
        0 <= h < count <= shapes.len(),
        confirm_from(bars, shapes[h], lines[h], 1) == Some(c),
    ensures
        0 <= k < events_of(bars, measures, shapes, lines, count).len(),
        events_of(bars, measures, shapes, lines, count)[k] == event_of(
            bars,
            measures,
            shapes[h],
            c,
        ),
    decreases count,
{
    if h == count - 1 {
        events_of(bars, measures, shapes, lines, count).len() - 1
    } else {
        lemma_event_is_told(bars, measures, shapes, lines, count - 1, h, c)
    }
}

/// The key levels in force at a bar: the value area and the average price last known up to
/// it, from the bars `a` and `v`, or the bar's own prices where nothing was; and the highest
/// high and the lowest low of up to 1440 bars before it, or the borders at the first one.
pub proof fn law_levels_in_force(bars: Seq<Bar>, i: int, a: int, v: int, k: int)
    requires
        0 <= i < bars.len(),
        -1 <= a <= i,
        -1 <= v <= i,
        a >= 0 ==> bars[a].value_area is Some,
        forall|j: int| a < j <= i ==> (#[trigger] bars[j]).value_area is None,
        v >= 0 ==> bars[v].avwap is Some,
        forall|j: int| v < j <= i ==> (#[trigger] bars[j]).avwap is None,
    ensures
        ({
            let levels = levels_at(bars, i);
            &&& a >= 0 ==> bars[a].value_area->0 == (levels.val, levels.vah, levels.poc)
            &&& a < 0 ==> levels.val == bars[i].low.at && levels.vah == bars[i].high.at
                && levels.poc == bars[i].close
            &&& levels.avwap == (if v >= 0 {
                bars[v].avwap->0
            } else {
                bars[i].close
            })
            &&& i == 0 ==> levels.session_high == levels.vah && levels.session_low == levels.val
            &&& 0 <= k < i && i - 1440 <= k ==> bars[k].high.at <= levels.session_high
                && levels.session_low <= bars[k].low.at
            &&& i > 0 ==> levels.session_high == -KEY_INFINITY || exists|j: int|
                0 <= j < i && i - 1440 <= j && (#[trigger] bars[j]).high.at == levels.session_high
            &&& i > 0 ==> levels.session_low == KEY_INFINITY || exists|j: int|
                0 <= j < i && i - 1440 <= j && (#[trigger] bars[j]).low.at == levels.session_low
        }),
{
    lemma_latest(bars, i + 1, a, v);
    let from = session_start(i);
    let high = highs(bars, from, i);
    let low = lows(bars, from, i);
    order::law_highest(high, order::highest(high));
    order::law_lowest(low, order::lowest(low));
    if 0 <= k < i && i - 1440 <= k {
        assert(high[k - from] == bars[k].high.at);
        assert(low[k - from] == bars[k].low.at);
    }
    if high.contains(order::highest(high)) {
        let j = choose|j: int| 0 <= j < high.len() && high[j] == order::highest(high);
        assert(bars[from + j].high.at == order::highest(high));
    }
    if low.contains(order::lowest(low)) {
        let j = choose|j: int| 0 <= j < low.len() && low[j] == order::lowest(low);
        assert(bars[from + j].low.at == order::lowest(low));
    }
}

proof fn lemma_latest(bars: Seq<Bar>, hi: int, a: int, v: int)
    requires
        0 <= hi <= bars.len(),
        -1 <= a < hi,
        -1 <= v < hi,
        a >= 0 ==> bars[a].value_area is Some,
        forall|j: int| a < j < hi ==> (#[trigger] bars[j]).value_area is None,
        v >= 0 ==> bars[v].avwap is Some,
        forall|j: int| v < j < hi ==> (#[trigger] bars[j]).avwap is None,
    ensures
        latest_area(bars.take(hi)) == (if a >= 0 {
            bars[a].value_area
        } else {
            None
        }),
        latest_avwap(bars.take(hi)) == (if v >= 0 {
            bars[v].avwap
        } else {
            None
        }),
{
    lemma_latest_area(bars, hi, a);
    lemma_latest_avwap(bars, hi, v);
}

proof fn lemma_latest_area(bars: Seq<Bar>, hi: int, a: int)
    requires
        0 <= hi <= bars.len(),
        -1 <= a < hi,
        a >= 0 ==> bars[a].value_area is Some,
        forall|j: int| a < j < hi ==> (#[trigger] bars[j]).value_area is None,
    ensures
        latest_area(bars.take(hi)) == (if a >= 0 {
            bars[a].value_area
        } else {
            None
        }),
    decreases hi,
{
    if hi > 0 {
        assert(bars.take(hi).drop_last() =~= bars.take(hi - 1));
        assert(bars.take(hi).last() == bars[hi - 1]);
        if a < hi - 1 {
            lemma_latest_area(bars, hi - 1, a);
        }
    }
}

proof fn lemma_latest_avwap(bars: Seq<Bar>, hi: int, v: int)
    requires
        0 <= hi <= bars.len(),
        -1 <= v < hi,
        v >= 0 ==> bars[v].avwap is Some,
        forall|j: int| v < j < hi ==> (#[trigger] bars[j]).avwap is None,
    ensures
        latest_avwap(bars.take(hi)) == (if v >= 0 {
            bars[v].avwap
        } else {
            None
        }),
    decreases hi,
{
    if hi > 0 {
        assert(bars.take(hi).drop_last() =~= bars.take(hi - 1));
        assert(bars.take(hi).last() == bars[hi - 1]);
        if v < hi - 1 {
            lemma_latest_avwap(bars, hi - 1, v);
        }
    }
}

/// The thresholds of the rules: four ticks, 0.15, 0.7 and six.
pub proof fn law_thresholds()
    ensures
        order::is_nearest(MIN_RANGE, 4, 100),
        order::is_nearest(RDELTA_ABS_MIN, 15, 100),
        order::is_nearest(ETA_REJECT, 7, 10),
        order::is_nearest(KEY_DIST_TICKS, 6, 1),
{
    order::lemma_powers_of_two();
}

} // verus!
