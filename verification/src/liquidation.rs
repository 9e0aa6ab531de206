//! Forced liquidations by price level.

use std::collections::{BTreeMap, HashSet};
use vstd::prelude::*;

use crate::order::Key;

verus! {

/// What was liquidated at a level.
#[derive(Clone, Copy, Debug, PartialEq, Eq)]
pub struct LiqAgg {
    /// Long positions.
    pub long_liq: Key,
    /// Short positions.
    pub short_liq: Key,
}

/// The liquidations of a minute, by tick.
#[derive(Clone, Debug, PartialEq, Eq)]
pub struct LiqMinute {
    /// Start of the minute.
    pub ts_bucket: i64,
    /// What was liquidated at each tick.
    pub force_liq: Vec<(i64, LiqAgg)>,
}

/// What the first `count` entries of a minute contribute to a tick, in order.
pub open spec fn entries_at(entries: Seq<(i64, LiqAgg)>, tick: i64, count: int) -> Seq<LiqAgg>
    decreases count,
{
    if count <= 0 {
        Seq::empty()
    } else if entries[count - 1].0 == tick {
        entries_at(entries, tick, count - 1).push(entries[count - 1].1)
    } else {
        entries_at(entries, tick, count - 1)
    }
}

/// What the first `count` minutes contribute to a tick, in order.
pub open spec fn rows_at(rows: Seq<LiqMinute>, tick: i64, count: int) -> Seq<LiqAgg>
    decreases count,
{
    if count <= 0 {
        Seq::empty()
    } else {
        let entries = rows[count - 1].force_liq@;
        rows_at(rows, tick, count - 1) + entries_at(entries, tick, entries.len() as int)
    }
}

/// The liquidations of a run of minutes, gathered by tick: for each tick that occurs,
/// its shares in the order of the minutes.
pub fn aggregate_force_liq_rows(rows: &[LiqMinute]) -> (out: BTreeMap<i64, Vec<LiqAgg>>)
    ensures
        forall|tick: i64|
            #[trigger] out@.contains_key(tick) <==> rows_at(rows@, tick, rows@.len() as int).len()
                > 0,
        forall|tick: i64|
            #[trigger] out@.contains_key(tick) ==> out@[tick]@ == rows_at(
                rows@,
                tick,
                rows@.len() as int,
            ),
{
    broadcast use vstd::std_specs::btree::group_btree_axioms;

    let mut out: BTreeMap<i64, Vec<LiqAgg>> = BTreeMap::new();
    let mut i: usize = 0;
    while i < rows.len()
        invariant
            i <= rows@.len(),
            forall|tick: i64|
                #[trigger] out@.contains_key(tick) <==> rows_at(rows@, tick, i as int).len() > 0,
            forall|tick: i64|
                #[trigger] out@.contains_key(tick) ==> out@[tick]@ == rows_at(
                    rows@,
                    tick,
                    i as int,
                ),
        decreases rows@.len() - i,
    {
        let ghost entries = rows@[i as int].force_liq@;
        let mut j: usize = 0;
        proof {
            assert forall|tick: i64| #[trigger] rows_at(rows@, tick, i as int) + entries_at(
                entries,
                tick,
                0,
            ) == rows_at(rows@, tick, i as int) by {
                assert(rows_at(rows@, tick, i as int) + entries_at(entries, tick, 0) =~= rows_at(
                    rows@,
                    tick,
                    i as int,
                ));
            }
        }
        while j < rows[i].force_liq.len()
            invariant
                i < rows@.len(),
                entries == rows@[i as int].force_liq@,
                j <= entries.len(),
                forall|tick: i64|
                    #[trigger] out@.contains_key(tick) <==> (rows_at(rows@, tick, i as int)
                        + entries_at(entries, tick, j as int)).len() > 0,
                forall|tick: i64|
                    #[trigger] out@.contains_key(tick) ==> out@[tick]@ == rows_at(
                        rows@,
                        tick,
                        i as int,
                    ) + entries_at(entries, tick, j as int),
            decreases entries.len() - j,
        {
            broadcast use vstd::std_specs::btree::group_btree_axioms;

            let (tick, agg) = rows[i].force_liq[j];
            let ghost before = out@;
            let taken: Option<Vec<LiqAgg>> = out.remove(&tick);
            let mut shares: Vec<LiqAgg> = match taken {
                Some(known) => known,
                None => Vec::new(),
            };
            proof {
                assert(shares@ =~= rows_at(rows@, tick, i as int) + entries_at(
                    entries,
                    tick,
                    j as int,
                )) by {
                    if !before.contains_key(tick) {
                        assert((rows_at(rows@, tick, i as int) + entries_at(
                            entries,
                            tick,
                            j as int,
                        )).len() == 0);
                    }
                }
            }
            shares.push(agg);
            let ghost pushed = shares@;
            let replaced: Option<Vec<LiqAgg>> = out.insert(tick, shares);
            proof {
                assert(pushed =~= rows_at(rows@, tick, i as int) + entries_at(
                    entries,
                    tick,
                    j + 1,
                ));
                assert forall|t: i64| #[trigger] out@.contains_key(t) implies out@[t]@ == rows_at(
                    rows@,
                    t,
                    i as int,
                ) + entries_at(entries, t, j + 1) by {
                    if t != tick {
                        assert(before.contains_key(t));
                        assert(out@[t] == before[t]);
                    }
                }
                assert forall|t: i64| #[trigger] out@.contains_key(t) <==> (rows_at(
                    rows@,
                    t,
                    i as int,
                ) + entries_at(entries, t, j + 1)).len() > 0 by {
                    if t != tick {
                        assert(out@.contains_key(t) == before.contains_key(t));
                    }
                }
            }
            j += 1;
        }
        i += 1;
    }
    out
}

/// Whether the level at `i` is a peak: above the threshold and no neighbour above it.
pub open spec fn is_local_peak(values: Seq<Key>, i: int, threshold: Key) -> bool {
    &&& values[i] > threshold
    &&& i > 0 ==> values[i] >= values[i - 1]
    &&& i + 1 < values.len() ==> values[i] >= values[i + 1]
}

/// The share of a level that peaks are looked for in.
pub open spec fn share(agg: LiqAgg, is_long: bool) -> Key {
    if is_long {
        agg.long_liq
    } else {
        agg.short_liq
    }
}

/// The shares of a run of levels.
pub open spec fn shares(rows: Seq<(i64, LiqAgg)>, is_long: bool) -> Seq<Key> {
    Seq::new(rows.len(), |i: int| share(rows[i].1, is_long))
}

fn share_of(agg: &LiqAgg, is_long: bool) -> (out: Key)
    ensures
        out == share(*agg, is_long),
{
    if is_long {
        agg.long_liq
    } else {
        agg.short_liq
    }
}

/// The ticks of the levels that are peaks.
pub fn detect_local_peaks(rows: &[(i64, LiqAgg)], is_long: bool, threshold: Key) -> (out: HashSet<
    i64,
>)
    ensures
        forall|tick: i64|
            #[trigger] out@.contains(tick) <==> exists|i: int|
                0 <= i < rows@.len() && (#[trigger] rows@[i]).0 == tick && is_local_peak(
                    shares(rows@, is_long),
                    i,
                    threshold,
                ),
{
    broadcast use vstd::std_specs::hash::group_hash_axioms;

    let mut out: HashSet<i64> = HashSet::new();
    let ghost values = shares(rows@, is_long);
    let n: usize = rows.len();
    let mut i: usize = 0;
    while i < n
        invariant
            i <= n,
            n == rows@.len(),
            values == shares(rows@, is_long),
            forall|tick: i64|
                #[trigger] out@.contains(tick) <==> exists|j: int|
                    0 <= j < i && (#[trigger] rows@[j]).0 == tick && is_local_peak(
                        values,
                        j,
                        threshold,
                    ),
        decreases n - i,
    {
        broadcast use vstd::std_specs::hash::group_hash_axioms;

        let tick: i64 = rows[i].0;
        let value: Key = share_of(&rows[i].1, is_long);
        let left: bool = i == 0 || value >= share_of(&rows[i - 1].1, is_long);
        let right: bool = i + 1 == n || value >= share_of(&rows[i + 1].1, is_long);
        let ghost before = out@;
        if value > threshold && left && right {
            let added: bool = out.insert(tick);
        }
        proof {
            assert(is_local_peak(values, i as int, threshold) == (value > threshold && left
                && right));
            assert forall|t: i64| #[trigger] out@.contains(t) <==> exists|j: int|
                0 <= j < i + 1 && (#[trigger] rows@[j]).0 == t && is_local_peak(
                    values,
                    j,
                    threshold,
                ) by {
                if before.contains(t) {
                    let j = choose|j: int|
                        0 <= j < i && (#[trigger] rows@[j]).0 == t && is_local_peak(
                            values,
                            j,
                            threshold,
                        );
                    assert(rows@[j].0 == t);
                }
                if exists|j: int|
                    0 <= j < i + 1 && (#[trigger] rows@[j]).0 == t && is_local_peak(
                        values,
                        j,
                        threshold,
                    ) {
                    let j = choose|j: int|
                        0 <= j < i + 1 && (#[trigger] rows@[j]).0 == t && is_local_peak(
                            values,
                            j,
                            threshold,
                        );
                    if j < i {
                        assert(rows@[j].0 == t);
                        assert(before.contains(t));
                    }
                }
            }
        }
        i += 1;
    }
    out
}

/// A level that is a peak of one side or the other.
#[derive(Clone, Copy, Debug, PartialEq, Eq)]
pub struct PeakLevel {
    /// Price in ticks.
    pub tick: i64,
    /// What was liquidated there.
    pub agg: LiqAgg,
    /// Whether it is a peak of long liquidations.
    pub is_long_peak: bool,
    /// Whether it is a peak of short liquidations.
    pub is_short_peak: bool,
}

/// Whether a tick is that of a peak.
pub open spec fn has_peak(
    rows: Seq<(i64, LiqAgg)>,
    tick: i64,
    is_long: bool,
    threshold: Key,
) -> bool {
    exists|i: int|
        0 <= i < rows.len() && (#[trigger] rows[i]).0 == tick && is_local_peak(
            shares(rows, is_long),
            i,
            threshold,
        )
}

/// The peak levels among the first `hi` rows.
pub open spec fn peaks_before(
    rows: Seq<(i64, LiqAgg)>,
    long_threshold: Key,
    short_threshold: Key,
    hi: int,
) -> Seq<PeakLevel>
    decreases hi,
{
    if hi <= 0 {
        Seq::empty()
    } else {
        let rest = peaks_before(rows, long_threshold, short_threshold, hi - 1);
        let (tick, agg) = rows[hi - 1];
        let long = has_peak(rows, tick, true, long_threshold);
        let short = has_peak(rows, tick, false, short_threshold);
        if long || short {
            rest.push(PeakLevel { tick, agg, is_long_peak: long, is_short_peak: short })
        } else {
            rest
        }
    }
}

/// The peak levels of a minute, given the thresholds of either side; the rows are in
/// the order of their ticks.
pub fn peak_levels(rows: &[(i64, LiqAgg)], long_threshold: Key, short_threshold: Key) -> (out: Vec<
    PeakLevel,
>)
    ensures
        out@ == peaks_before(rows@, long_threshold, short_threshold, rows@.len() as int),
{
    broadcast use vstd::std_specs::hash::group_hash_axioms;

    let long_peaks: HashSet<i64> = detect_local_peaks(rows, true, long_threshold);
    let short_peaks: HashSet<i64> = detect_local_peaks(rows, false, short_threshold);
    let mut out: Vec<PeakLevel> = Vec::new();
    let mut i: usize = 0;
    while i < rows.len()
        invariant
            i <= rows@.len(),
            forall|tick: i64|
                #[trigger] long_peaks@.contains(tick) <==> has_peak(
                    rows@,
                    tick,
                    true,
                    long_threshold,
                ),
            forall|tick: i64|
                #[trigger] short_peaks@.contains(tick) <==> has_peak(
                    rows@,
                    tick,
                    false,
                    short_threshold,
                ),
            out@ == peaks_before(rows@, long_threshold, short_threshold, i as int),
        decreases rows@.len() - i,
    {
        broadcast use vstd::std_specs::hash::group_hash_axioms;

        let (tick, agg) = rows[i];
        let long: bool = long_peaks.contains(&tick);
        let short: bool = short_peaks.contains(&tick);
        if long || short {
            out.push(PeakLevel { tick, agg, is_long_peak: long, is_short_peak: short });
        }
        i += 1;
    }
    out
}

/// Whether a level is a peak of one side: more than the threshold was liquidated there, and no
/// more at the levels next to it.
pub open spec fn stands_out(rows: Seq<(i64, LiqAgg)>, i: int, is_long: bool, threshold: Key) -> bool {
    let at = |k: int|
        if is_long {
            rows[k].1.long_liq
        } else {
            rows[k].1.short_liq
        };
    &&& 0 <= i < rows.len()
    &&& threshold < at(i)
    &&& 0 < i ==> at(i - 1) <= at(i)
    &&& i < rows.len() - 1 ==> at(i + 1) <= at(i)
}

/// Of levels at different ticks exactly the peaks of either side are listed, in order, each
/// with what was liquidated there and the sides it is a peak of.
pub proof fn law_peaks_are_listed(
    rows: Seq<(i64, LiqAgg)>,
    long_threshold: Key,
    short_threshold: Key,
    hi: int,
)
    requires
        0 <= hi <= rows.len(),
        forall|a: int, b: int|
            0 <= a < b < rows.len() ==> (#[trigger] rows[a]).0 != (#[trigger] rows[b]).0,
    ensures
        ({
            let out = peaks_before(rows, long_threshold, short_threshold, hi);
            &&& forall|k: int|
                0 <= k < out.len() ==> is_peak_among(
                    #[trigger] out[k],
                    rows,
                    hi,
                    long_threshold,
                    short_threshold,
                )
            &&& forall|i: int|
                0 <= i < hi && (stands_out(rows, i, true, long_threshold) || stands_out(
                    rows,
                    i,
                    false,
                    short_threshold,
                )) ==> lists_tick(out, (#[trigger] rows[i]).0)
        }),
    decreases hi,
{
    if hi > 0 {
        law_peaks_are_listed(rows, long_threshold, short_threshold, hi - 1);
        let rest = peaks_before(rows, long_threshold, short_threshold, hi - 1);
        let out = peaks_before(rows, long_threshold, short_threshold, hi);
        let i = hi - 1;
        lemma_has_peak(rows, i, true, long_threshold);
        lemma_has_peak(rows, i, false, short_threshold);
        assert forall|k: int| 0 <= k < out.len() implies is_peak_among(
            #[trigger] out[k],
            rows,
            hi,
            long_threshold,
            short_threshold,
        ) by {
            if k < rest.len() {
                assert(is_peak_among(rest[k], rows, hi - 1, long_threshold, short_threshold));
                let j = choose|j: int|
                    0 <= j < hi - 1 && #[trigger] is_peak_at(
                        rest[k],
                        rows,
                        j,
                        long_threshold,
                        short_threshold,
                    );
                assert(is_peak_at(out[k], rows, j, long_threshold, short_threshold));
            } else {
                assert(is_peak_at(out[k], rows, i, long_threshold, short_threshold));
            }
        }
        assert forall|j: int|
            0 <= j < hi && (stands_out(rows, j, true, long_threshold) || stands_out(
                rows,
                j,
                false,
                short_threshold,
            )) implies lists_tick(out, (#[trigger] rows[j]).0) by {
            if j < i {
                assert(lists_tick(rest, rows[j].0));
                let k = choose|k: int| 0 <= k < rest.len() && (#[trigger] rest[k]).tick == rows[j].0;
                assert(out[k].tick == rows[j].0);
            } else {
                assert(out[out.len() - 1].tick == rows[j].0);
            }
        }
    }
}

/// Whether one of the listed peaks is at a tick.
pub open spec fn lists_tick(out: Seq<PeakLevel>, tick: i64) -> bool {
    exists|k: int| 0 <= k < out.len() && (#[trigger] out[k]).tick == tick
}

/// Whether a listed peak is that of a level.
pub open spec fn is_peak_at(
    peak: PeakLevel,
    rows: Seq<(i64, LiqAgg)>,
    i: int,
    long_threshold: Key,
    short_threshold: Key,
) -> bool {
    &&& peak.tick == rows[i].0 && peak.agg == rows[i].1
    &&& peak.is_long_peak == stands_out(rows, i, true, long_threshold)
    &&& peak.is_short_peak == stands_out(rows, i, false, short_threshold)
    &&& peak.is_long_peak || peak.is_short_peak
}

/// Whether a listed peak is that of one of the first `hi` levels.
pub open spec fn is_peak_among(
    peak: PeakLevel,
    rows: Seq<(i64, LiqAgg)>,
    hi: int,
    long_threshold: Key,
    short_threshold: Key,
) -> bool {
    exists|i: int|
        0 <= i < hi && #[trigger] is_peak_at(peak, rows, i, long_threshold, short_threshold)
}

proof fn lemma_has_peak(rows: Seq<(i64, LiqAgg)>, i: int, is_long: bool, threshold: Key)
    requires
        0 <= i < rows.len(),
        forall|a: int, b: int|
            0 <= a < b < rows.len() ==> (#[trigger] rows[a]).0 != (#[trigger] rows[b]).0,
    ensures
        has_peak(rows, rows[i].0, is_long, threshold) <==> stands_out(rows, i, is_long, threshold),
{
    let tick = rows[i].0;
    if has_peak(rows, tick, is_long, threshold) {
        let j = choose|j: int|
            0 <= j < rows.len() && (#[trigger] rows[j]).0 == tick && is_local_peak(
                shares(rows, is_long),
                j,
                threshold,
            );
        assert(j == i);
    }
    if stands_out(rows, i, is_long, threshold) {
        assert(is_local_peak(shares(rows, is_long), i, threshold));
    }
}

/// What is gathered at a tick are the shares of all entries of all minutes at that tick.
pub proof fn law_shares_are_gathered(rows: Seq<LiqMinute>, tick: i64, agg: LiqAgg, count: int)
    requires
        0 <= count <= rows.len(),
    ensures
        rows_at(rows, tick, count).contains(agg) <==> exists|m: int, e: int|
            0 <= m < count && 0 <= e < rows[m].force_liq@.len() && #[trigger] rows[m].force_liq@[e]
                == (tick, agg),
    decreases count,
{
    let all = rows_at(rows, tick, count);
    if count > 0 {
        law_shares_are_gathered(rows, tick, agg, count - 1);
        let rest = rows_at(rows, tick, count - 1);
        let entries = rows[count - 1].force_liq@;
        let own = entries_at(entries, tick, entries.len() as int);
        lemma_entries_at(entries, tick, agg, entries.len() as int);
        assert(all == rest + own);
        if all.contains(agg) {
            let k = choose|k: int| 0 <= k < all.len() && all[k] == agg;
            if k < rest.len() {
                assert(rest[k] == agg);
                let (m, e) = choose|m: int, e: int|
                    0 <= m < count - 1 && 0 <= e < rows[m].force_liq@.len()
                        && #[trigger] rows[m].force_liq@[e] == (tick, agg);
                assert(rows[m].force_liq@[e] == (tick, agg));
            } else {
                assert(own[k - rest.len()] == agg);
                let e = choose|e: int| 0 <= e < entries.len() && entries[e] == (tick, agg);
                assert(rows[count - 1].force_liq@[e] == (tick, agg));
            }
        }
        if exists|m: int, e: int|
            0 <= m < count && 0 <= e < rows[m].force_liq@.len() && #[trigger] rows[m].force_liq@[e]
                == (tick, agg) {
            let (m, e) = choose|m: int, e: int|
                0 <= m < count && 0 <= e < rows[m].force_liq@.len()
                    && #[trigger] rows[m].force_liq@[e] == (tick, agg);
            if m < count - 1 {
                assert(rest.contains(agg));
                let k = choose|k: int| 0 <= k < rest.len() && rest[k] == agg;
                assert(all[k] == agg);
            } else {
                assert(entries[e] == (tick, agg));
                assert(own.contains(agg));
                let k = choose|k: int| 0 <= k < own.len() && own[k] == agg;
                assert(all[rest.len() + k] == agg);
            }
        }
    }
}

proof fn lemma_entries_at(entries: Seq<(i64, LiqAgg)>, tick: i64, agg: LiqAgg, count: int)
    requires
        0 <= count <= entries.len(),
    ensures
        entries_at(entries, tick, count).contains(agg) <==> exists|e: int|
            0 <= e < count && #[trigger] entries[e] == (tick, agg),
    decreases count,
{
    if count > 0 {
        lemma_entries_at(entries, tick, agg, count - 1);
        let rest = entries_at(entries, tick, count - 1);
        let all = entries_at(entries, tick, count);
        let last = entries[count - 1];
        if all.contains(agg) {
            let k = choose|k: int| 0 <= k < all.len() && all[k] == agg;
            if k < rest.len() {
                assert(rest[k] == agg);
            } else {
                assert(entries[count - 1] == (tick, agg));
            }
        }
        if rest.contains(agg) {
            let k = choose|k: int| 0 <= k < rest.len() && rest[k] == agg;
            assert(all[k] == agg);
        }
        if last == (tick, agg) {
            assert(all[all.len() - 1] == agg);
        }
    }
}

} // verus!
