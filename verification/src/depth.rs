//! Depth of the order book: its peaks, the levels kept for audit, and the rules that
//! compare book pressure with trades.

#[allow(unused_imports)]
#[allow(unused_imports)]
use crate::clock;
use crate::order;
use crate::order::{is_comparable, order_key, Key, SIGN_BIT};
use crate::ranking;
use crate::ranking::sort_desc_by_value_then_tick;
use std::collections::HashSet;
use vstd::prelude::*;

verus! {

/// Windows that the book is summed over, by name and minutes.
pub open spec fn spec_windows() -> Seq<(Seq<char>, i64)> {
    seq![("15m"@, 15i64), ("1h"@, 60)]
}

/// Windows that the book is summed over, by name and minutes.
pub fn windows() -> (out: [(&'static str, i64); 2])
    ensures
        forall|i: int|
            0 <= i < 2 ==> (#[trigger] out@[i]).0@ == spec_windows()[i].0 && out@[i].1
                == spec_windows()[i].1,
{
    [("15m", 15), ("1h", 60)]
}

/// Earlier sums that a window's flow is held against.
pub const OFI_NORM_LOOKBACK: usize = 60;

/// Levels kept for their total.
pub const RAW_AUDIT_TOP_TOTAL_LEVELS: usize = 64;

/// Levels kept for their imbalance.
pub const RAW_AUDIT_TOP_ABS_NET_LEVELS: usize = 32;

/// Levels kept for their bids.
pub const RAW_AUDIT_TOP_BID_LEVELS: usize = 16;

/// Levels kept for their asks.
pub const RAW_AUDIT_TOP_ASK_LEVELS: usize = 16;

/// The key of 0.02, the most that price moves when it does not respond.
pub const KEY_WEAK_MOVE: i64 = 0x3F94_7AE1_47AE_147B;

/// The key of 0.4, the least pressure that price should respond to.
pub const KEY_PRESSURE: i64 = 0x3FD9_9999_9999_999A;

/// The key of the smallest sum that counts.
pub const KEY_EPS: i64 = 0x3D71_9799_812D_EA11;

/// A level of the book.
#[derive(Clone, Copy, Debug, PartialEq, Eq)]
pub struct BookLevel {
    /// Price in ticks.
    pub tick: i64,
    /// Liquidity bid.
    pub bid_liquidity: Key,
    /// Liquidity asked.
    pub ask_liquidity: Key,
    /// Both together.
    pub total: Key,
    /// The size of their difference.
    pub abs_net: Key,
}

/// What a level is weighed by.
#[derive(Clone, Copy, Debug, PartialEq, Eq)]
pub enum Weight {
    /// Liquidity bid.
    Bid,
    /// Liquidity asked.
    Ask,
    /// Both together.
    Total,
    /// The size of their difference.
    AbsNet,
}

/// A level kept for audit.
#[derive(Clone, Copy, Debug, PartialEq, Eq)]
pub struct LevelRow {
    /// The level.
    pub level: BookLevel,
    /// Its place in the book, counted from one.
    pub level_rank: i32,
    /// Whether no level bids more.
    pub is_peak_bid: bool,
    /// Whether no level asks more.
    pub is_peak_ask: bool,
    /// Whether no level holds more.
    pub is_peak_total: bool,
    /// Whether no level is more lopsided.
    pub is_peak_abs_net: bool,
}

/// What is told of the book of a minute.
pub struct OrderbookDepthPrecomputed {
    /// The ticks kept for audit.
    pub selected_audit_ticks: HashSet<i64>,
    /// Tick of the first level that no level bids more than.
    pub peak_bid_tick: Option<i64>,
    /// Tick of the first level that no level asks more than.
    pub peak_ask_tick: Option<i64>,
    /// Tick of the first level that no level holds more than.
    pub peak_total_tick: Option<i64>,
    /// Tick of the first level that no level is more lopsided than.
    pub peak_abs_net_tick: Option<i64>,
    /// The levels kept for audit, in the order of the book.
    pub level_rows: Vec<LevelRow>,
}

/// The weight of a level.
pub open spec fn weigh(level: BookLevel, weight: Weight) -> Key {
    match weight {
        Weight::Bid => level.bid_liquidity,
        Weight::Ask => level.ask_liquidity,
        Weight::Total => level.total,
        Weight::AbsNet => level.abs_net,
    }
}

fn weight_of(level: &BookLevel, weight: Weight) -> (out: Key)
    ensures
        out == weigh(*level, weight),
{
    match weight {
        Weight::Bid => level.bid_liquidity,
        Weight::Ask => level.ask_liquidity,
        Weight::Total => level.total,
        Weight::AbsNet => level.abs_net,
    }
}

/// Whether the level at `i` is the first of the heaviest.
pub open spec fn is_peak(levels: Seq<BookLevel>, i: int, weight: Weight) -> bool {
    &&& 0 <= i < levels.len()
    &&& forall|j: int|
        0 <= j < levels.len() ==> weigh(#[trigger] levels[j], weight) <= weigh(levels[i], weight)
    &&& forall|j: int|
        0 <= j < i ==> weigh(#[trigger] levels[j], weight) < weigh(levels[i], weight)
}

/// The tick of the first of the heaviest levels.
pub fn peak_tick(levels: &[BookLevel], weight: Weight) -> (out: Option<i64>)
    ensures
        out is None <==> levels@.len() == 0,
        out matches Some(tick) ==> exists|i: int|
            #[trigger] is_peak(levels@, i, weight) && levels@[i].tick == tick,
        forall|i: int|
            #[trigger] is_peak(levels@, i, weight) ==> out == Some(levels@[i].tick),
{
    let n: usize = levels.len();
    if n == 0 {
        return None;
    }
    let mut best: usize = 0;
    let mut i: usize = 1;
    while i < n
        invariant
            1 <= i <= n,
            n == levels@.len(),
            best < i,
            forall|j: int|
                0 <= j < i ==> weigh(#[trigger] levels@[j], weight) <= weigh(
                    levels@[best as int],
                    weight,
                ),
            forall|j: int|
                0 <= j < best ==> weigh(#[trigger] levels@[j], weight) < weigh(
                    levels@[best as int],
                    weight,
                ),
        decreases n - i,
    {
        if weight_of(&levels[i], weight) > weight_of(&levels[best], weight) {
            best = i;
        }
        i += 1;
    }
    proof {
        assert(is_peak(levels@, best as int, weight));
        assert forall|k: int| #[trigger] is_peak(levels@, k, weight) implies k == best by {
            if k < best {
                assert(weigh(levels@[k], weight) < weigh(levels@[best as int], weight));
            }
            if best < k {
                assert(weigh(levels@[best as int], weight) < weigh(levels@[k], weight));
            }
        }
    }
    Some(levels[best].tick)
}

/// The levels with their weights.
pub open spec fn weighed(levels: Seq<BookLevel>, weight: Weight) -> Seq<(i64, Key)> {
    Seq::new(levels.len(), |i: int| (levels[i].tick, weigh(levels[i], weight)))
}

/// The ticks kept for audit: those of the heaviest levels by each weight.
pub open spec fn audit_ticks(levels: Seq<BookLevel>) -> Set<i64> {
    ranking::top_ticks(weighed(levels, Weight::Total), RAW_AUDIT_TOP_TOTAL_LEVELS as int).union(
        ranking::top_ticks(weighed(levels, Weight::AbsNet), RAW_AUDIT_TOP_ABS_NET_LEVELS as int),
    ).union(ranking::top_ticks(weighed(levels, Weight::Bid), RAW_AUDIT_TOP_BID_LEVELS as int)).union(
        ranking::top_ticks(weighed(levels, Weight::Ask), RAW_AUDIT_TOP_ASK_LEVELS as int),
    )
}

/// Adds the ticks of the `k` heaviest levels to a set.
fn keep_top(levels: &[BookLevel], weight: Weight, k: usize, kept: &mut HashSet<i64>)
    ensures
        final(kept)@ == old(kept)@.union(
            ranking::top_ticks(weighed(levels@, weight), k as int),
        ),
{
    broadcast use vstd::std_specs::hash::group_hash_axioms;

    let mut rows: Vec<(i64, Key)> = Vec::new();
    let mut i: usize = 0;
    while i < levels.len()
        invariant
            i <= levels@.len(),
            rows@ =~= weighed(levels@, weight).take(i as int),
        decreases levels@.len() - i,
    {
        rows.push((levels[i].tick, weight_of(&levels[i], weight)));
        i += 1;
    }
    let ghost pairs = weighed(levels@, weight);
    proof {
        assert(rows@ =~= pairs);
        ranking::law_ranked(pairs);
    }
    sort_desc_by_value_then_tick(&mut rows);
    let mut j: usize = 0;
    while j < k && j < rows.len()
        invariant
            rows@ == ranking::ranked(pairs),
            rows@.len() == pairs.len(),
            j <= rows@.len(),
            j <= k,
            forall|tick: i64|
                #[trigger] kept@.contains(tick) <==> old(kept)@.contains(tick) || exists|a: int|
                    0 <= a < j && (#[trigger] ranking::ranked(pairs)[a]).0 == tick,
        decreases rows@.len() - j,
    {
        let tick: i64 = rows[j].0;
        let ghost before = kept@;
        let added: bool = kept.insert(tick);
        proof {
            assert(kept@ == before.insert(tick));
            assert(ranking::ranked(pairs)[j as int].0 == tick);
            assert forall|t: i64| #[trigger] kept@.contains(t) <==> old(kept)@.contains(t)
                || exists|a: int|
                0 <= a < j + 1 && (#[trigger] ranking::ranked(pairs)[a]).0 == t by {
                if before.contains(t) {
                    if !old(kept)@.contains(t) {
                        let a = choose|a: int|
                            0 <= a < j && (#[trigger] ranking::ranked(pairs)[a]).0 == t;
                        assert(ranking::ranked(pairs)[a].0 == t);
                    }
                }
            }
        }
        j += 1;
    }
    proof {
        assert(kept@ =~= old(kept)@.union(ranking::top_ticks(pairs, k as int)));
    }
}

/// The ticks kept for audit: those of the heaviest levels by each weight.
pub fn select_heatmap_audit_ticks(levels: &[BookLevel]) -> (out: HashSet<i64>)
    ensures
        out@ == audit_ticks(levels@),
{
    let mut out: HashSet<i64> = HashSet::new();
    keep_top(levels, Weight::Total, RAW_AUDIT_TOP_TOTAL_LEVELS, &mut out);
    keep_top(levels, Weight::AbsNet, RAW_AUDIT_TOP_ABS_NET_LEVELS, &mut out);
    keep_top(levels, Weight::Bid, RAW_AUDIT_TOP_BID_LEVELS, &mut out);
    keep_top(levels, Weight::Ask, RAW_AUDIT_TOP_ASK_LEVELS, &mut out);
    proof {
        assert(out@ =~= audit_ticks(levels@));
    }
    out
}

/// The row of the level at `i`.
pub open spec fn row_of(
    levels: Seq<BookLevel>,
    i: int,
    peak_bid: Option<i64>,
    peak_ask: Option<i64>,
    peak_total: Option<i64>,
    peak_abs_net: Option<i64>,
) -> LevelRow {
    let tick = levels[i].tick;
    LevelRow {
        level: levels[i],
        level_rank: (i + 1) as i32,
        is_peak_bid: peak_bid == Some(tick),
        is_peak_ask: peak_ask == Some(tick),
        is_peak_total: peak_total == Some(tick),
        is_peak_abs_net: peak_abs_net == Some(tick),
    }
}

/// The places of the first `hi` levels whose ticks are kept.
pub open spec fn kept_places(levels: Seq<BookLevel>, kept: Set<i64>, hi: int) -> Seq<int>
    decreases hi,
{
    if hi <= 0 {
        Seq::empty()
    } else if kept.contains(levels[hi - 1].tick) {
        kept_places(levels, kept, hi - 1).push(hi - 1)
    } else {
        kept_places(levels, kept, hi - 1)
    }
}

fn is_tick(peak: Option<i64>, tick: i64) -> (out: bool)
    ensures
        out == (peak == Some(tick)),
{
    match peak {
        Some(at) => at == tick,
        None => false,
    }
}

/// Whether the peaks of a book, the levels kept for audit and their rows are told.
pub open spec fn tells_book(out: OrderbookDepthPrecomputed, levels: Seq<BookLevel>) -> bool {
    &&& out.selected_audit_ticks@ == audit_ticks(levels)
    &&& is_peak_tick(out.peak_bid_tick, levels, Weight::Bid)
    &&& is_peak_tick(out.peak_ask_tick, levels, Weight::Ask)
    &&& is_peak_tick(out.peak_total_tick, levels, Weight::Total)
    &&& is_peak_tick(out.peak_abs_net_tick, levels, Weight::AbsNet)
    &&& out.level_rows@ == kept_places(
        levels,
        audit_ticks(levels),
        levels.len() as int,
    ).map_values(
        |i: int|
            row_of(
                levels,
                i,
                out.peak_bid_tick,
                out.peak_ask_tick,
                out.peak_total_tick,
                out.peak_abs_net_tick,
            ),
    )
}

/// Whether a tick is that of the level of a book with the most of a weight; none where the
/// book is empty.
pub open spec fn is_peak_tick(tick: Option<i64>, levels: Seq<BookLevel>, weight: Weight) -> bool {
    &&& forall|i: int| #[trigger] is_peak(levels, i, weight) ==> tick == Some(levels[i].tick)
    &&& levels.len() == 0 ==> tick is None
    &&& levels.len() > 0 ==> exists|i: int| is_peak(levels, i, weight)
}

/// What is told of the book of a minute; the levels are in the order of their ticks.
pub fn build_orderbook_depth_precomputed(levels: &[BookLevel]) -> (out: OrderbookDepthPrecomputed)
    requires
        levels@.len() < i32::MAX,
    ensures
        tells_book(out, levels@),
{
    broadcast use vstd::std_specs::hash::group_hash_axioms;

    let peak_bid_tick: Option<i64> = peak_tick(levels, Weight::Bid);
    let peak_ask_tick: Option<i64> = peak_tick(levels, Weight::Ask);
    let peak_total_tick: Option<i64> = peak_tick(levels, Weight::Total);
    let peak_abs_net_tick: Option<i64> = peak_tick(levels, Weight::AbsNet);
    let selected_audit_ticks: HashSet<i64> = select_heatmap_audit_ticks(levels);
    let ghost f = |i: int|
        row_of(levels@, i, peak_bid_tick, peak_ask_tick, peak_total_tick, peak_abs_net_tick);
    let mut level_rows: Vec<LevelRow> = Vec::new();
    let mut i: usize = 0;
    let n: usize = levels.len();
    while i < n
        invariant
            i <= n,
            n == levels@.len(),
            n < i32::MAX,
            f == (|i: int|
                row_of(
                    levels@,
                    i,
                    peak_bid_tick,
                    peak_ask_tick,
                    peak_total_tick,
                    peak_abs_net_tick,
                )),
            selected_audit_ticks@ == audit_ticks(levels@),
            level_rows@ =~= kept_places(levels@, audit_ticks(levels@), i as int).map_values(f),
        decreases n - i,
    {
        broadcast use vstd::std_specs::hash::group_hash_axioms;

        let level: BookLevel = levels[i];
        if selected_audit_ticks.contains(&level.tick) {
            level_rows.push(
                LevelRow {
                    level,
                    level_rank: (i + 1) as i32,
                    is_peak_bid: is_tick(peak_bid_tick, level.tick),
                    is_peak_ask: is_tick(peak_ask_tick, level.tick),
                    is_peak_total: is_tick(peak_total_tick, level.tick),
                    is_peak_abs_net: is_tick(peak_abs_net_tick, level.tick),
                },
            );
        }
        i += 1;
    }
    OrderbookDepthPrecomputed {
        selected_audit_ticks,
        peak_bid_tick,
        peak_ask_tick,
        peak_total_tick,
        peak_abs_net_tick,
        level_rows,
    }
}

/// Every tick kept for audit is one of the book's.
pub proof fn law_audit_ticks_are_of_the_book(levels: Seq<BookLevel>, tick: i64)
    requires
        audit_ticks(levels).contains(tick),
    ensures
        exists|i: int| 0 <= i < levels.len() && (#[trigger] levels[i]).tick == tick,
{
    let weight = if ranking::top_ticks(
        weighed(levels, Weight::Total),
        RAW_AUDIT_TOP_TOTAL_LEVELS as int,
    ).contains(tick) {
        Weight::Total
    } else if ranking::top_ticks(
        weighed(levels, Weight::AbsNet),
        RAW_AUDIT_TOP_ABS_NET_LEVELS as int,
    ).contains(tick) {
        Weight::AbsNet
    } else if ranking::top_ticks(
        weighed(levels, Weight::Bid),
        RAW_AUDIT_TOP_BID_LEVELS as int,
    ).contains(tick) {
        Weight::Bid
    } else {
        Weight::Ask
    };
    let pairs = weighed(levels, weight);
    ranking::law_ranked(pairs);
    let a = choose|a: int|
        0 <= a < 64 && a < pairs.len() && (#[trigger] ranking::ranked(pairs)[a]).0 == tick;
    assert(pairs.contains(ranking::ranked(pairs)[a]));
    let i = choose|i: int| 0 <= i < pairs.len() && pairs[i] == ranking::ranked(pairs)[a];
    assert(levels[i].tick == tick);
}

/// A book of no more levels than are kept by their totals is kept whole.
pub proof fn law_small_books_are_kept(levels: Seq<BookLevel>, i: int)
    requires
        levels.len() <= RAW_AUDIT_TOP_TOTAL_LEVELS,
        0 <= i < levels.len(),
    ensures
        audit_ticks(levels).contains(levels[i].tick),
{
    broadcast use vstd::seq_lib::group_to_multiset_ensures;

    let pairs = weighed(levels, Weight::Total);
    let rows = ranking::ranked(pairs);
    ranking::law_ranked(pairs);
    assert(pairs.contains(pairs[i]));
    assert(rows.to_multiset().count(pairs[i]) > 0);
    assert(rows.contains(pairs[i]));
    let a = choose|a: int| 0 <= a < rows.len() && rows[a] == pairs[i];
    assert(ranking::ranked(pairs)[a].0 == levels[i].tick);
    assert(ranking::top_ticks(pairs, RAW_AUDIT_TOP_TOTAL_LEVELS as int).contains(levels[i].tick));
}

/// The weights of levels that come in another order are the same ones.
proof fn lemma_weighed_alike(a: Seq<BookLevel>, b: Seq<BookLevel>, weight: Weight)
    requires
        a.to_multiset() == b.to_multiset(),
    ensures
        weighed(a, weight).to_multiset() == weighed(b, weight).to_multiset(),
    decreases a.len(),
{
    broadcast use vstd::seq_lib::group_to_multiset_ensures;
    broadcast use vstd::multiset::group_multiset_axioms;

    a.to_multiset_ensures();
    b.to_multiset_ensures();
    if a.len() == 0 {
        assert(weighed(a, weight) =~= weighed(b, weight));
    } else {
        let last = a.len() - 1;
        let level = a[last];
        assert(a.contains(level));
        assert(b.to_multiset().count(level) > 0);
        let j = b.index_of(level);
        assert(a.remove(last).to_multiset() == b.remove(j).to_multiset());
        lemma_weighed_alike(a.remove(last), b.remove(j), weight);
        assert(weighed(a.remove(last), weight) =~= weighed(a, weight).remove(last));
        assert(weighed(b.remove(j), weight) =~= weighed(b, weight).remove(j));
        let wa = weighed(a, weight);
        let wb = weighed(b, weight);
        assert(wa[last] == wb[j]);
        assert(wa.contains(wa[last]));
        assert(wb.contains(wb[j]));
        assert(wa.to_multiset() =~= wa.remove(last).to_multiset().insert(wa[last]));
        assert(wb.to_multiset() =~= wb.remove(j).to_multiset().insert(wb[j]));
    }
}

/// The ticks kept for audit do not depend on the order that the levels come in.
pub proof fn law_audit_ticks_ignore_order(a: Seq<BookLevel>, b: Seq<BookLevel>)
    requires
        a.to_multiset() == b.to_multiset(),
    ensures
        audit_ticks(a) == audit_ticks(b),
{
    broadcast use vstd::seq_lib::group_to_multiset_ensures;

    lemma_weighed_alike(a, b, Weight::Total);
    lemma_weighed_alike(a, b, Weight::AbsNet);
    lemma_weighed_alike(a, b, Weight::Bid);
    lemma_weighed_alike(a, b, Weight::Ask);
    ranking::law_ranking_ignores_order(weighed(a, Weight::Total), weighed(b, Weight::Total));
    ranking::law_ranking_ignores_order(weighed(a, Weight::AbsNet), weighed(b, Weight::AbsNet));
    ranking::law_ranking_ignores_order(weighed(a, Weight::Bid), weighed(b, Weight::Bid));
    ranking::law_ranking_ignores_order(weighed(a, Weight::Ask), weighed(b, Weight::Ask));
}

/// The ticks of the `k` heaviest levels are at most `k`.
proof fn lemma_top_bounded(rows: Seq<(i64, Key)>, k: int)
    requires
        k >= 0,
    ensures
        ranking::top_ticks(rows, k).finite(),
        ranking::top_ticks(rows, k).len() <= k,
    decreases k,
{
    ranking::law_ranked(rows);
    if k == 0 {
        assert(ranking::top_ticks(rows, 0) =~= Set::empty());
    } else {
        lemma_top_bounded(rows, k - 1);
        let less = ranking::top_ticks(rows, k - 1);
        if k <= rows.len() {
            let tick = ranking::ranked(rows)[k - 1].0;
            assert(ranking::top_ticks(rows, k) =~= less.insert(tick)) by {
                assert forall|t: i64| ranking::top_ticks(rows, k).contains(t) <==> less.insert(
                    tick,
                ).contains(t) by {
                    if ranking::top_ticks(rows, k).contains(t) {
                        let a = choose|a: int|
                            0 <= a < k && a < rows.len() && (#[trigger] ranking::ranked(rows)[a]).0
                                == t;
                        if a < k - 1 {
                            assert(ranking::ranked(rows)[a].0 == t);
                        }
                    }
                    if less.contains(t) {
                        let a = choose|a: int|
                            0 <= a < k - 1 && a < rows.len() && (
                            #[trigger] ranking::ranked(rows)[a]).0 == t;
                        assert(ranking::ranked(rows)[a].0 == t);
                    }
                }
            }
        } else {
            assert(ranking::top_ticks(rows, k) =~= less) by {
                assert forall|t: i64| ranking::top_ticks(rows, k).contains(t) <==> less.contains(
                    t,
                ) by {
                    if ranking::top_ticks(rows, k).contains(t) {
                        let a = choose|a: int|
                            0 <= a < k && a < rows.len() && (#[trigger] ranking::ranked(rows)[a]).0
                                == t;
                        assert(a < k - 1);
                    }
                    if less.contains(t) {
                        let a = choose|a: int|
                            0 <= a < k - 1 && a < rows.len() && (
                            #[trigger] ranking::ranked(rows)[a]).0 == t;
                        assert(ranking::ranked(rows)[a].0 == t);
                    }
                }
            }
        }
    }
}

/// No more ticks are kept for audit than the four shares together.
pub proof fn law_audit_ticks_are_bounded(levels: Seq<BookLevel>)
    ensures
        audit_ticks(levels).finite(),
        audit_ticks(levels).len() <= RAW_AUDIT_TOP_TOTAL_LEVELS + RAW_AUDIT_TOP_ABS_NET_LEVELS
            + RAW_AUDIT_TOP_BID_LEVELS + RAW_AUDIT_TOP_ASK_LEVELS,
{
    let a = ranking::top_ticks(weighed(levels, Weight::Total), RAW_AUDIT_TOP_TOTAL_LEVELS as int);
    let b = ranking::top_ticks(
        weighed(levels, Weight::AbsNet),
        RAW_AUDIT_TOP_ABS_NET_LEVELS as int,
    );
    let c = ranking::top_ticks(weighed(levels, Weight::Bid), RAW_AUDIT_TOP_BID_LEVELS as int);
    let d = ranking::top_ticks(weighed(levels, Weight::Ask), RAW_AUDIT_TOP_ASK_LEVELS as int);
    lemma_top_bounded(weighed(levels, Weight::Total), RAW_AUDIT_TOP_TOTAL_LEVELS as int);
    lemma_top_bounded(weighed(levels, Weight::AbsNet), RAW_AUDIT_TOP_ABS_NET_LEVELS as int);
    lemma_top_bounded(weighed(levels, Weight::Bid), RAW_AUDIT_TOP_BID_LEVELS as int);
    lemma_top_bounded(weighed(levels, Weight::Ask), RAW_AUDIT_TOP_ASK_LEVELS as int);
    vstd::set_lib::lemma_len_union(a, b);
    vstd::set_lib::lemma_len_union(a.union(b), c);
    vstd::set_lib::lemma_len_union(a.union(b).union(c), d);
}

/// The heaviest level comes first in the ranking of a book in the order of its ticks.
proof fn lemma_peak_is_first(levels: Seq<BookLevel>, i: int, weight: Weight)
    requires
        is_peak(levels, i, weight),
        forall|a: int, b: int|
            0 <= a < b < levels.len() ==> (#[trigger] levels[a]).tick < (#[trigger] levels[b]).tick,
    ensures
        ranking::ranked(weighed(levels, weight))[0].0 == levels[i].tick,
{
    broadcast use vstd::seq_lib::group_to_multiset_ensures;

    let pairs = weighed(levels, weight);
    let ranked = ranking::ranked(pairs);
    ranking::law_ranked(pairs);
    assert(pairs.contains(ranked[0]));
    let f = choose|f: int| 0 <= f < pairs.len() && pairs[f] == ranked[0];
    assert(pairs[i] == (levels[i].tick, weigh(levels[i], weight)));
    assert(pairs.contains(pairs[i]));
    assert(pairs.to_multiset().count(pairs[i]) > 0);
    assert(ranked.to_multiset().count(pairs[i]) > 0);
    assert(ranked.contains(pairs[i]));
    let p = choose|p: int| 0 <= p < ranked.len() && ranked[p] == pairs[i];
    assert(ranking::no_later(ranked[0], ranked[p]));
    assert(weigh(levels[f], weight) <= weigh(levels[i], weight));
    if f != i {
        if f < i {
            assert(weigh(levels[f], weight) < weigh(levels[i], weight));
        } else {
            assert(levels[i].tick < levels[f].tick);
        }
    }
}

/// The peaks of a book in the order of its ticks are always kept for audit.
pub proof fn law_peaks_are_kept(levels: Seq<BookLevel>, i: int, weight: Weight)
    requires
        is_peak(levels, i, weight),
        forall|a: int, b: int|
            0 <= a < b < levels.len() ==> (#[trigger] levels[a]).tick < (#[trigger] levels[b]).tick,
    ensures
        audit_ticks(levels).contains(levels[i].tick),
{
    lemma_peak_is_first(levels, i, weight);
    let pairs = weighed(levels, weight);
    let k: int = match weight {
        Weight::Bid => RAW_AUDIT_TOP_BID_LEVELS as int,
        Weight::Ask => RAW_AUDIT_TOP_ASK_LEVELS as int,
        Weight::Total => RAW_AUDIT_TOP_TOTAL_LEVELS as int,
        Weight::AbsNet => RAW_AUDIT_TOP_ABS_NET_LEVELS as int,
    };
    assert(ranking::ranked(pairs)[0].0 == levels[i].tick);
    assert(ranking::top_ticks(pairs, k).contains(levels[i].tick));
}

/// Whether a figure leans up, by its bit pattern: its sign bit is clear. So zero leans the
/// way its sign says.
pub open spec fn leans_up(bits: u64) -> bool {
    bits < SIGN_BIT
}

/// Whether two figures, given by their bit patterns, lean the same way. What is not a
/// number leans no way at all.
pub open spec fn lean_alike(a: u64, b: u64) -> bool {
    order::compares(a) && order::compares(b) && leans_up(a) == leans_up(b)
}

fn same_lean(a: u64, b: u64) -> (out: bool)
    ensures
        out == lean_alike(a, b),
{
    is_comparable(a) && is_comparable(b) && (a < SIGN_BIT) == (b < SIGN_BIT)
}

/// Whether two figures, given by their bit patterns, lean the same way; no figure leans
/// with none.
pub fn leans_with(a: Option<u64>, b: Option<u64>) -> (out: bool)
    ensures
        out == match (a, b) {
            (Some(x), Some(y)) => lean_alike(x, y),
            _ => false,
        },
{
    match (a, b) {
        (Some(x), Some(y)) => same_lean(x, y),
        _ => false,
    }
}

/// Whether trades lean the way the book does, both given by their bit patterns; an absent
/// book leans up.
pub fn exec_confirm(delta: u64, pressure: Option<u64>) -> (out: bool)
    ensures
        out == match pressure {
            Some(p) => lean_alike(delta, p),
            None => lean_alike(delta, 0),
        },
{
    match pressure {
        Some(p) => same_lean(delta, p),
        None => same_lean(delta, 0),
    }
}

/// Whether price fails to respond to pressure: it moved no more than two hundredths
/// under pressure of at least 0.4 either way.
pub fn weak_price_response(price_move: Option<Key>, pressure: Option<Key>) -> (out: bool)
    ensures
        out == match (price_move, pressure) {
            (Some(m), Some(p)) => m <= KEY_WEAK_MOVE && (p >= KEY_PRESSURE || p <= -KEY_PRESSURE),
            _ => false,
        },
{
    match (price_move, pressure) {
        (Some(m), Some(p)) => m <= KEY_WEAK_MOVE && (p >= KEY_PRESSURE || p <= -KEY_PRESSURE),
        _ => false,
    }
}

/// Whether spot trading drives price against futures: it leans the other way, by more than
/// `scaled`.
pub open spec fn drives_against(spot_delta: u64, fut_delta: u64, scaled: Key) -> bool {
    &&& order::compares(spot_delta)
    &&& order::compares(fut_delta)
    &&& order::key_of_bits(spot_delta) > scaled || order::key_of_bits(spot_delta) < -scaled
    &&& leans_up(spot_delta) != leans_up(fut_delta)
}

/// Whether spot trading drives price against futures, both deltas given by their bit
/// patterns: it leans the other way, by more than `scaled`, which is 1.2 times the size of
/// the futures delta. A delta that is not a number drives nothing and is driven by nothing.
pub fn spot_driven_divergence(spot_delta: u64, fut_delta: u64, scaled: Key) -> (out: bool)
    requires
        scaled > i64::MIN,
    ensures
        out == drives_against(spot_delta, fut_delta, scaled),
{
    let spot: Key = order_key(spot_delta);
    is_comparable(spot_delta) && is_comparable(fut_delta) && (spot > scaled || spot < -scaled) && (
    spot_delta < SIGN_BIT) != (fut_delta < SIGN_BIT)
}

/// Whether the flow of an earlier window counts as a sample.
pub fn counts_as_sample(sum: Key) -> (out: bool)
    ensures
        out == (sum > KEY_EPS || sum < -KEY_EPS),
{
    sum > KEY_EPS || sum < -KEY_EPS
}

/// What a minute or a window of the book and of trading comes to, figures given by their
/// bit patterns.
#[derive(Clone, Copy, Debug, PartialEq, Eq)]
pub struct DepthReading {
    pub fut_delta: u64,
    pub spot_delta: u64,
    /// The key of 1.2 times the size of the futures delta.
    pub scaled: Key,
    /// The pressure of the futures book that trades are held against.
    pub traded_pressure: Option<u64>,
    /// The pressure of the futures book that the spot book is held against.
    pub pressure: Option<u64>,
    pub spot_pressure: Option<u64>,
    /// The pressure that price has to respond to.
    pub response_pressure: Option<u64>,
    /// The key of how far the price moved.
    pub moved: Option<Key>,
}

/// What is said of a reading.
#[derive(Clone, Copy, Debug, PartialEq, Eq)]
pub struct DepthFlags {
    pub exec_confirm_fut: bool,
    pub spot_confirm: bool,
    pub weak_price_resp_fut: bool,
    pub spot_driven_divergence: bool,
}

/// What is said of a reading: whether trades lean with the book, whether the spot book
/// leans with it, whether price fails to respond, and whether spot trading drives against
/// futures.
pub open spec fn flags_of(r: DepthReading) -> DepthFlags {
    DepthFlags {
        exec_confirm_fut: match r.traded_pressure {
            Some(p) => lean_alike(r.fut_delta, p),
            None => lean_alike(r.fut_delta, 0),
        },
        spot_confirm: match (r.spot_pressure, r.pressure) {
            (Some(x), Some(y)) => lean_alike(x, y),
            _ => false,
        },
        weak_price_resp_fut: match (r.moved, r.response_pressure) {
            (Some(m), Some(p)) => m <= KEY_WEAK_MOVE && order::compares(p) && (order::key_of_bits(p)
                >= KEY_PRESSURE || order::key_of_bits(p) <= -KEY_PRESSURE),
            _ => false,
        },
        spot_driven_divergence: drives_against(r.spot_delta, r.fut_delta, r.scaled),
    }
}

fn flags(r: &DepthReading) -> (out: DepthFlags)
    requires
        r.scaled > i64::MIN,
    ensures
        out == flags_of(*r),
{
    let response: Option<Key> = match r.response_pressure {
        Some(p) => if is_comparable(p) {
            Some(order_key(p))
        } else {
            None
        },
        None => None,
    };
    DepthFlags {
        exec_confirm_fut: exec_confirm(r.fut_delta, r.traded_pressure),
        spot_confirm: leans_with(r.spot_pressure, r.pressure),
        weak_price_resp_fut: weak_price_response(r.moved, response),
        spot_driven_divergence: spot_driven_divergence(r.spot_delta, r.fut_delta, r.scaled),
    }
}

/// What a minute of a market says of its book, figures by their bit patterns.
#[derive(Clone, Copy, Debug, PartialEq, Eq)]
pub struct BookMinute {
    pub delta: u64,
    pub obi_twa: Option<u64>,
    pub obi_k_twa: Option<u64>,
    pub obi_k_dw_twa: Option<u64>,
}

/// The first of two figures that is present.
pub open spec fn present(a: Option<u64>, b: Option<u64>) -> Option<u64> {
    match a {
        Some(_) => a,
        None => b,
    }
}

/// The first of two figures that is present.
pub fn first_present(a: Option<u64>, b: Option<u64>) -> (out: Option<u64>)
    ensures
        out == present(a, b),
{
    match a {
        Some(_) => a,
        None => b,
    }
}

/// The reading of a minute of both markets: trades are held against the plain pressure,
/// the books against each other by the weighted one, each with the pressure at the top
/// where it is absent; price has to respond to the weighted pressure, or to none.
pub open spec fn minute_reading(
    fut: BookMinute,
    spot: BookMinute,
    scaled: Key,
    moved: Option<Key>,
) -> DepthReading {
    DepthReading {
        fut_delta: fut.delta,
        spot_delta: spot.delta,
        scaled,
        traded_pressure: present(fut.obi_k_twa, fut.obi_twa),
        pressure: present(fut.obi_k_dw_twa, fut.obi_twa),
        spot_pressure: present(spot.obi_k_dw_twa, spot.obi_twa),
        response_pressure: present(fut.obi_k_dw_twa, Some(0)),
        moved,
    }
}

/// The report of a minute.
pub struct DepthReport {
    pub book: OrderbookDepthPrecomputed,
    pub now: DepthFlags,
    /// The windows that the book is summed over, each with what is said of it.
    pub by_window: Vec<(&'static str, DepthFlags)>,
}

/// The order book depth indicator.
/// The order book depth indicator.
pub struct I05OrderbookDepth;

impl I05OrderbookDepth {
    /// The code of the indicator.
    pub fn code(&self) -> (out: &'static str)
        ensures
            out@ == "orderbook_depth"@,
    {
        "orderbook_depth"
    }

    /// The report of a minute: what is told of its book, and what is said of the minute and
    /// of each window. `scaled` is 1.2 times the size of the futures delta, `moved` how far
    /// the price moved since the last close.
    pub fn evaluate(
        &self,
        levels: &[BookLevel],
        fut: &BookMinute,
        spot: &BookMinute,
        scaled: Key,
        moved: Option<Key>,
        windows_read: &[DepthReading; 2],
    ) -> (out: DepthReport)
        requires
            levels@.len() < i32::MAX,
            scaled > i64::MIN,
            windows_read@[0].scaled > i64::MIN,
            windows_read@[1].scaled > i64::MIN,
        ensures
            tells_book(out.book, levels@),
            out.now == flags_of(minute_reading(*fut, *spot, scaled, moved)),
            out.by_window@.len() == 2,
            forall|w: int|
                0 <= w < 2 ==> (#[trigger] out.by_window@[w]).0@ == spec_windows()[w].0
                    && out.by_window@[w].1 == flags_of(windows_read@[w]),
    {
        let asked: [(&'static str, i64); 2] = windows();
        let reading = DepthReading {
            fut_delta: fut.delta,
            spot_delta: spot.delta,
            scaled,
            traded_pressure: first_present(fut.obi_k_twa, fut.obi_twa),
            pressure: first_present(fut.obi_k_dw_twa, fut.obi_twa),
            spot_pressure: first_present(spot.obi_k_dw_twa, spot.obi_twa),
            response_pressure: first_present(fut.obi_k_dw_twa, Some(0)),
            moved,
        };
        let mut by_window: Vec<(&'static str, DepthFlags)> = Vec::new();
        by_window.push((asked[0].0, flags(&windows_read[0])));
        by_window.push((asked[1].0, flags(&windows_read[1])));
        proof {
            assert(asked@[0].0@ == spec_windows()[0].0);
            assert(asked@[1].0@ == spec_windows()[1].0);
        }
        DepthReport {
            book: build_orderbook_depth_precomputed(levels),
            now: flags(&reading),
            by_window,
        }
    }
}

/// Every window is as long as its name says.
pub proof fn law_windows_are_named(w: int)
    requires
        0 <= w < 2,
    ensures
        clock::named_minutes(spec_windows()[w].0) == spec_windows()[w].1,
{
    clock::lemma_named_minutes();
}

/// The peaks of a book that is not empty: no level bids, asks or holds more than that at the
/// tick of the peak, or is more lopsided, and no level before it does so as much.
pub proof fn law_peaks_are_heaviest(
    out: OrderbookDepthPrecomputed,
    levels: Seq<BookLevel>,
)
    requires
        tells_book(out, levels),
        levels.len() > 0,
    ensures
        exists|i: int|
            0 <= i < levels.len() && out.peak_bid_tick == Some((#[trigger] levels[i]).tick) && (
            forall|j: int|
                0 <= j < levels.len() ==> (#[trigger] levels[j]).bid_liquidity
                    <= levels[i].bid_liquidity && (j < i ==> levels[j].bid_liquidity
                    < levels[i].bid_liquidity)),
        exists|i: int|
            0 <= i < levels.len() && out.peak_ask_tick == Some((#[trigger] levels[i]).tick) && (
            forall|j: int|
                0 <= j < levels.len() ==> (#[trigger] levels[j]).ask_liquidity
                    <= levels[i].ask_liquidity && (j < i ==> levels[j].ask_liquidity
                    < levels[i].ask_liquidity)),
        exists|i: int|
            0 <= i < levels.len() && out.peak_total_tick == Some((#[trigger] levels[i]).tick) && (
            forall|j: int|
                0 <= j < levels.len() ==> (#[trigger] levels[j]).total <= levels[i].total && (j < i
                    ==> levels[j].total < levels[i].total)),
        exists|i: int|
            0 <= i < levels.len() && out.peak_abs_net_tick == Some((#[trigger] levels[i]).tick) && (
            forall|j: int|
                0 <= j < levels.len() ==> (#[trigger] levels[j]).abs_net <= levels[i].abs_net && (j
                    < i ==> levels[j].abs_net < levels[i].abs_net)),
{
    let bid = choose|i: int| is_peak(levels, i, Weight::Bid);
    assert forall|j: int| 0 <= j < levels.len() implies (#[trigger] levels[j]).bid_liquidity
        <= levels[bid].bid_liquidity && (j < bid ==> levels[j].bid_liquidity
        < levels[bid].bid_liquidity) by {
        assert(weigh(levels[j], Weight::Bid) <= weigh(levels[bid], Weight::Bid));
    }
    assert(out.peak_bid_tick == Some(levels[bid].tick));
    let ask = choose|i: int| is_peak(levels, i, Weight::Ask);
    assert forall|j: int| 0 <= j < levels.len() implies (#[trigger] levels[j]).ask_liquidity
        <= levels[ask].ask_liquidity && (j < ask ==> levels[j].ask_liquidity
        < levels[ask].ask_liquidity) by {
        assert(weigh(levels[j], Weight::Ask) <= weigh(levels[ask], Weight::Ask));
    }
    assert(out.peak_ask_tick == Some(levels[ask].tick));
    let total = choose|i: int| is_peak(levels, i, Weight::Total);
    assert forall|j: int| 0 <= j < levels.len() implies (#[trigger] levels[j]).total
        <= levels[total].total && (j < total ==> levels[j].total < levels[total].total) by {
        assert(weigh(levels[j], Weight::Total) <= weigh(levels[total], Weight::Total));
    }
    assert(out.peak_total_tick == Some(levels[total].tick));
    let net = choose|i: int| is_peak(levels, i, Weight::AbsNet);
    assert forall|j: int| 0 <= j < levels.len() implies (#[trigger] levels[j]).abs_net
        <= levels[net].abs_net && (j < net ==> levels[j].abs_net < levels[net].abs_net) by {
        assert(weigh(levels[j], Weight::AbsNet) <= weigh(levels[net], Weight::AbsNet));
    }
    assert(out.peak_abs_net_tick == Some(levels[net].tick));
}

/// A level that is not kept for audit is a light one: by each weight there are enough levels,
/// 64 by total, 32 by imbalance and 16 on either side, that are at least as heavy. Those that
/// are heaviest by a weight are listed first where levels are ranked by it.
pub proof fn law_left_out_levels_are_light(levels: Seq<BookLevel>, i: int, a: int)
    requires
        0 <= i < levels.len(),
        !audit_ticks(levels).contains(levels[i].tick),
    ensures
        levels.len() > 64,
        0 <= a < 64 ==> ranking::ranked(weighed(levels, Weight::Total))[a].1 >= levels[i].total,
        0 <= a < 32 ==> ranking::ranked(weighed(levels, Weight::AbsNet))[a].1 >= levels[i].abs_net,
        0 <= a < 16 ==> ranking::ranked(weighed(levels, Weight::Bid))[a].1
            >= levels[i].bid_liquidity,
        0 <= a < 16 ==> ranking::ranked(weighed(levels, Weight::Ask))[a].1
            >= levels[i].ask_liquidity,
{
    lemma_outranked(levels, i, a, Weight::Total, 64);
    lemma_outranked(levels, i, a, Weight::AbsNet, 32);
    lemma_outranked(levels, i, a, Weight::Bid, 16);
    lemma_outranked(levels, i, a, Weight::Ask, 16);
}

proof fn lemma_outranked(levels: Seq<BookLevel>, i: int, a: int, weight: Weight, k: int)
    requires
        0 <= i < levels.len(),
        k > 0,
        !ranking::top_ticks(weighed(levels, weight), k).contains(levels[i].tick),
    ensures
        levels.len() > k,
        0 <= a < k ==> ranking::ranked(weighed(levels, weight))[a].1 >= weigh(levels[i], weight),
{
    broadcast use vstd::seq_lib::group_to_multiset_ensures;

    let pairs = weighed(levels, weight);
    let sorted = ranking::ranked(pairs);
    ranking::law_ranked(pairs);
    assert(pairs[i] == (levels[i].tick, weigh(levels[i], weight)));
    assert(pairs.contains(pairs[i]));
    assert(pairs.to_multiset().count(pairs[i]) > 0);
    assert(sorted.to_multiset().count(pairs[i]) > 0);
    assert(sorted.contains(pairs[i]));
    let p = choose|p: int| 0 <= p < sorted.len() && sorted[p] == pairs[i];
    assert(p >= k) by {
        if p < k {
            assert(sorted[p].0 == levels[i].tick);
        }
    }
    if 0 <= a < k {
        ranking::law_heavier_first(pairs, a, p);
    }
}

/// The rows kept for audit are those of the levels whose ticks are kept, in the order of the
/// book, each ranked by its place and flagged where its tick is that of a peak.
pub proof fn law_audit_rows(out: OrderbookDepthPrecomputed, levels: Seq<BookLevel>, k: int)
    requires
        tells_book(out, levels),
        levels.len() < i32::MAX,
        0 <= k < out.level_rows@.len(),
    ensures
        ({
            let row = out.level_rows@[k];
            let i = row.level_rank - 1;
            &&& 0 <= i < levels.len()
            &&& row.level == levels[i]
            &&& out.selected_audit_ticks@.contains(levels[i].tick)
            &&& row.is_peak_bid <==> out.peak_bid_tick == Some(levels[i].tick)
            &&& row.is_peak_ask <==> out.peak_ask_tick == Some(levels[i].tick)
            &&& row.is_peak_total <==> out.peak_total_tick == Some(levels[i].tick)
            &&& row.is_peak_abs_net <==> out.peak_abs_net_tick == Some(levels[i].tick)
            &&& k > 0 ==> out.level_rows@[k - 1].level_rank < row.level_rank
        }),
{
    let places = kept_places(levels, audit_ticks(levels), levels.len() as int);
    lemma_kept_places(levels, audit_ticks(levels), levels.len() as int);
    assert(out.level_rows@.len() == places.len());
    assert(0 <= places[k] < levels.len());
    if k > 0 {
        assert(places[k - 1] < places[k]);
    }
}

/// Every level whose tick is kept has its row.
pub proof fn law_kept_levels_have_rows(
    out: OrderbookDepthPrecomputed,
    levels: Seq<BookLevel>,
    i: int,
)
    requires
        tells_book(out, levels),
        levels.len() < i32::MAX,
        0 <= i < levels.len(),
        out.selected_audit_ticks@.contains(levels[i].tick),
    ensures
        exists|k: int|
            0 <= k < out.level_rows@.len() && (#[trigger] out.level_rows@[k]).level == levels[i]
                && out.level_rows@[k].level_rank == i + 1,
{
    let places = kept_places(levels, audit_ticks(levels), levels.len() as int);
    lemma_kept_places(levels, audit_ticks(levels), levels.len() as int);
    assert(places.contains(i));
    let k = choose|k: int| 0 <= k < places.len() && places[k] == i;
    assert(out.level_rows@[k].level == levels[i]);
}

proof fn lemma_kept_places(levels: Seq<BookLevel>, kept: Set<i64>, hi: int)
    requires
        0 <= hi <= levels.len(),
    ensures
        ({
            let places = kept_places(levels, kept, hi);
            &&& forall|k: int|
                0 <= k < places.len() ==> 0 <= #[trigger] places[k] < hi && kept.contains(
                    levels[places[k]].tick,
                )
            &&& forall|a: int, b: int|
                0 <= a < b < places.len() ==> #[trigger] places[a] < #[trigger] places[b]
            &&& forall|i: int|
                0 <= i < hi && kept.contains((#[trigger] levels[i]).tick) ==> places.contains(i)
        }),
    decreases hi,
{
    if hi > 0 {
        lemma_kept_places(levels, kept, hi - 1);
        let rest = kept_places(levels, kept, hi - 1);
        let places = kept_places(levels, kept, hi);
        assert forall|i: int|
            0 <= i < hi && kept.contains((#[trigger] levels[i]).tick) implies places.contains(i) by {
            if i < hi - 1 {
                assert(rest.contains(i));
                let k = choose|k: int| 0 <= k < rest.len() && rest[k] == i;
                assert(places[k] == i);
            } else {
                assert(places[places.len() - 1] == i);
            }
        }
    }
}

/// What is said of a reading. Trades confirm the book where delta and pressure are numbers of
/// one sign, zero by its sign bit, and an absent pressure is a plain zero. The spot book
/// confirms where both pressures are there, numbers and of one sign. Price responds weakly
/// where it moved two hundredths or less under a pressure of 0.4 or more in size. Spot drives
/// against futures where the deltas are numbers of different signs and that of spot is larger
/// in size than 1.2 times that of futures.
pub proof fn law_flags(r: DepthReading)
    ensures
        ({
            let out = flags_of(r);
            let plus = |b: u64| b <= 0x7FF0_0000_0000_0000;
            let minus = |b: u64| 0x8000_0000_0000_0000 <= b <= 0xFFF0_0000_0000_0000;
            let alike = |x: u64, y: u64| (plus(x) && plus(y)) || (minus(x) && minus(y));
            let size = if r.spot_delta < 0x8000_0000_0000_0000 {
                r.spot_delta as int
            } else {
                r.spot_delta - 0x8000_0000_0000_0000
            };
            &&& out.exec_confirm_fut <==> alike(
                r.fut_delta,
                match r.traded_pressure {
                    Some(p) => p,
                    None => 0,
                },
            )
            &&& out.spot_confirm <==> r.spot_pressure is Some && r.pressure is Some && alike(
                r.spot_pressure->0,
                r.pressure->0,
            )
            &&& out.weak_price_resp_fut <==> (r.moved matches Some(m) && m <= KEY_WEAK_MOVE) && (
            r.response_pressure matches Some(p) && (KEY_PRESSURE <= p <= 0x7FF0_0000_0000_0000
                || 0x8000_0000_0000_0000 + KEY_PRESSURE <= p <= 0xFFF0_0000_0000_0000))
            &&& r.scaled >= 0 ==> (out.spot_driven_divergence <==> r.scaled < size && ((plus(
                r.spot_delta,
            ) && minus(r.fut_delta)) || (minus(r.spot_delta) && plus(r.fut_delta))))
        }),
{
}

/// A minute is read by the plain pressure of the futures book against trades, by the weighted
/// one against the spot book, each replaced by that at the top where it is missing; price is
/// held against the weighted one alone, or zero.
pub proof fn law_minute_reading(fut: BookMinute, spot: BookMinute, scaled: Key, moved: Option<Key>)
    ensures
        ({
            let r = minute_reading(fut, spot, scaled, moved);
            &&& r.fut_delta == fut.delta && r.spot_delta == spot.delta
            &&& r.scaled == scaled && r.moved == moved
            &&& fut.obi_k_twa is Some ==> r.traded_pressure == fut.obi_k_twa
            &&& fut.obi_k_twa is None ==> r.traded_pressure == fut.obi_twa
            &&& fut.obi_k_dw_twa is Some ==> r.pressure == fut.obi_k_dw_twa && r.response_pressure
                == fut.obi_k_dw_twa
            &&& fut.obi_k_dw_twa is None ==> r.pressure == fut.obi_twa && r.response_pressure
                == Some(0u64)
            &&& spot.obi_k_dw_twa is Some ==> r.spot_pressure == spot.obi_k_dw_twa
            &&& spot.obi_k_dw_twa is None ==> r.spot_pressure == spot.obi_twa
        }),
{
}

/// The thresholds of the rules: 0.02, 0.4 and a millionth of a millionth.
pub proof fn law_thresholds()
    ensures
        order::is_nearest(KEY_WEAK_MOVE, 2, 100),
        order::is_nearest(KEY_PRESSURE, 4, 10),
        order::is_nearest(KEY_EPS, 1, 1_000_000_000_000),
{
    order::lemma_powers_of_two();
}

} // verus!
